//! Numbers and texts of reports, configuration and log lines.

use webstat::config::{
    build_config, check_config_text, reject_legacy_log_keys, resolve_glob_list, resolve_path,
    Config, ConfigError, Overrides,
};
use webstat::doubles::{compact_3sf, ratio_string};
use webstat::ip::{parse_ipv4_u32, parse_ipv6_u128, Ip};
use webstat::logging::Logging;
use webstat::progress::{progress_line, ProgressLine};
use webstat::ranking::{best_positions, nth_best, rank, top_positions, Score};
use webstat::reports::{
    count_fmt, css_overrides, flag_emoji, format_bytes, format_totals,
    format_totals_with_rt, format_whole_ms, month_name, number_fmt, short_status_label, status_label, StyleConfig,
};

// ── Numbers ───────────────────────────────────────────────────────────────

#[test]
fn numbers_are_grouped() {
    assert_eq!(number_fmt(0), "0");
    assert_eq!(number_fmt(999), "999");
    assert_eq!(number_fmt(1_000), "1,000");
    assert_eq!(number_fmt(1_234_567), "1,234,567");
    assert_eq!(number_fmt(u64::MAX), "18,446,744,073,709,551,615");
    assert_eq!(count_fmt(1_234, false), "1,234");
    assert_eq!(count_fmt(1_234, true), "1.23k");
}

/// The same in floating point.
fn compact_in_doubles(n: u64) -> String {
    if n < 1000 {
        return n.to_string();
    }
    let units = ["", "k", "m", "b", "t"];
    let mut unit_idx = 0usize;
    let mut value = n as f64;
    while value >= 1000.0 && unit_idx + 1 < units.len() {
        value /= 1000.0;
        unit_idx += 1;
    }
    let places = |v: f64| if v >= 100.0 { 0 } else if v >= 10.0 { 1 } else { 2usize };
    let mut decimals = places(value);
    let mut factor = 10f64.powi(decimals as i32);
    let mut rounded = (value * factor).round() / factor;
    if rounded >= 1000.0 && unit_idx + 1 < units.len() {
        unit_idx += 1;
        value = rounded / 1000.0;
        decimals = places(value);
        factor = 10f64.powi(decimals as i32);
        rounded = (value * factor).round() / factor;
    }
    let mut num = format!("{rounded:.decimals$}");
    while num.contains('.') && num.ends_with('0') {
        num.pop();
    }
    if num.ends_with('.') {
        num.pop();
    }
    format!("{}{}", num, units[unit_idx])
}

#[test]
fn counts_have_three_digits() {
    assert_eq!(compact_3sf(0), "0");
    assert_eq!(compact_3sf(999), "999");
    assert_eq!(compact_3sf(1_000), "1k");
    assert_eq!(compact_3sf(1_500), "1.5k");
    assert_eq!(compact_3sf(12_345), "12.3k");
    assert_eq!(compact_3sf(999_499), "999k");
    assert_eq!(compact_3sf(999_500), "1m");
    assert_eq!(compact_3sf(7_000_000_000), "7b");
    assert_eq!(compact_3sf(u64::MAX), compact_in_doubles(u64::MAX));
    for n in 0..200_000 {
        assert_eq!(compact_3sf(n), compact_in_doubles(n));
    }
    let mut n: u64 = 88172645463325252;
    for i in 0..100_000 {
        n ^= n << 13;
        n ^= n >> 7;
        n ^= n << 17;
        let v = n >> (i % 55);
        assert_eq!(compact_3sf(v), compact_in_doubles(v));
    }
}

#[test]
fn bytes_have_units() {
    assert_eq!(format_bytes(0), "0 B");
    assert_eq!(format_bytes(1_023), "1023 B");
    assert_eq!(format_bytes(1_024), "1.0 KB");
    assert_eq!(format_bytes(1_536), "1.5 KB");
    assert_eq!(format_bytes(1_048_576), "1.0 MB");
    assert_eq!(format_bytes(5_368_709_120), "5.00 GB");
    assert_eq!(format_bytes(1_099_511_627_776), "1.00 TB");
    assert_eq!(format_bytes(1_125_899_906_842_624), "1.00 PB");
    assert_eq!(format_bytes(u64::MAX), "16384.00 PB");
}

#[test]
fn quotients_print_as_doubles_do() {
    let mut n: u64 = 88172645463325252;
    for _ in 0..100_000 {
        n ^= n << 13;
        n ^= n >> 7;
        n ^= n << 17;
        let d = (n >> 40) + 1;
        let v = d + (n & 0xffff_ffff);
        let expected = format!("{:.2}", v as f64 / d as f64);
        assert_eq!(ratio_string(v, d, 2), expected);
        assert_eq!(ratio_string(v, 1_000, 1), format!("{:.1}", v as f64 / 1_000.0));
    }
    // Half-way cases go to the even digit.
    assert_eq!(ratio_string(5, 4, 1), "1.2");
    assert_eq!(ratio_string(7, 4, 1), "1.8");
    assert_eq!(ratio_string(3, 2, 0), "2");
}

#[test]
fn times_are_told_in_milliseconds_or_seconds() {
    assert_eq!(format_whole_ms(0), "<1ms");
    assert_eq!(format_whole_ms(1), "1ms");
    assert_eq!(format_whole_ms(999), "999ms");
    assert_eq!(format_whole_ms(1_000), "1.00s");
    assert_eq!(format_whole_ms(1_239), "1.24s");
}

#[test]
fn totals_are_told_in_two_ways() {
    let t = format_totals(12_345, 6_789, 10, 2_048, true);
    assert_eq!((t.hits, t.visits, t.visitors, t.bandwidth), (12_345, 6_789, 10, 2_048));
    assert_eq!((t.hits_fmt.as_str(), t.hits_exact_fmt.as_str()), ("12.3k", "12,345"));
    assert_eq!((t.visits_fmt.as_str(), t.visits_exact_fmt.as_str()), ("6.79k", "6,789"));
    assert_eq!((t.visitors_fmt.as_str(), t.visitors_exact_fmt.as_str()), ("10", "10"));
    assert_eq!(t.bandwidth_fmt, "2.0 KB");
    assert_eq!((t.avg_rt_ms, t.p95_rt_ms), (None, None));
    let t = format_totals_with_rt(1, 1, 1, 1, false, Some("12ms".to_string()), Some(1_500));
    assert_eq!(t.avg_rt_ms.as_deref(), Some("12ms"));
    assert_eq!(t.p95_rt_ms.as_deref(), Some("1.50s"));
}

// ── Labels ────────────────────────────────────────────────────────────────

#[test]
fn months_statuses_and_flags_have_names() {
    assert_eq!(month_name(1), "January");
    assert_eq!(month_name(12), "December");
    assert_eq!(month_name(13), "Unknown");
    assert_eq!(status_label(404), "Code 404 - Not Found");
    assert_eq!(status_label(418), "Code 418");
    assert_eq!(status_label(0), "Undefined response code");
    assert_eq!(short_status_label(418), "418");
    assert_eq!(short_status_label(0), "Unknown");
    assert_eq!(flag_emoji("D1"), "");
    assert_eq!(flag_emoji("DEU"), "");
    assert_eq!(short_status_label(200), "200 OK");
    assert_eq!(flag_emoji("DE"), "\u{1f1e9}\u{1f1ea}");
    assert_eq!(flag_emoji("de"), "\u{1f1e9}\u{1f1ea}");
    assert_eq!(flag_emoji("--"), "");
}

#[test]
fn only_the_colours_that_are_set_are_styled() {
    let mut style = StyleConfig {
        bg: None,
        surface: None,
        surface_alt: None,
        border: None,
        text: None,
        text_muted: None,
        accent: None,
        accent_hover: None,
        metric_hits: None,
        metric_files: None,
        metric_pages: None,
        metric_visits: None,
        metric_sites: None,
        metric_bandwidth: None,
        status_2xx_bg: None,
        status_3xx_bg: None,
        status_4xx_bg: None,
        status_5xx_bg: None,
        status_other_bg: None,
        weekend_bg: None,
    };
    assert_eq!(css_overrides(&style), "");
    style.bg = Some("#111".to_string());
    style.accent = Some("red".to_string());
    let css = css_overrides(&style);
    assert!(css.contains("    --bg: #111;\n    --accent: red;"));
}

// ── Ranking ───────────────────────────────────────────────────────────────

fn scores(values: &[u64]) -> Vec<Score> {
    values.iter().map(|v| Score::of_count(*v)).collect()
}

#[test]
fn ranking_is_stable() {
    assert_eq!(rank(&scores(&[3, 9, 3, 1, 9])), [1, 4, 0, 2, 3]);
    assert_eq!(top_positions(&scores(&[3, 9, 3, 1, 9]), 3), [1, 4, 0]);
    let mut some: Vec<Option<Score>> = scores(&[3, 9, 4]).into_iter().map(Some).collect();
    some.push(None);
    assert_eq!(best_positions(&some, 2), [1, 2]);
    assert_eq!(best_positions(&some, 9), [1, 2, 0]);
    assert_eq!(nth_best(&some, 2).map(|s| s.num), Some(4));
    assert!(nth_best(&some, 4).is_none());
}

#[test]
fn averages_are_compared_exactly() {
    let third = Score { num: 1, den: 3 };
    let close = Score { num: u64::MAX / 3, den: u64::MAX - 1 };
    assert!(close.is_ge(third));
    assert!(!third.is_ge(close));
}

// ── Addresses ─────────────────────────────────────────────────────────────

#[test]
fn addresses_are_parsed_strictly() {
    let v4 = [
        ("0.0.0.0", 0u32),
        ("255.255.255.255", u32::MAX),
        ("10.0.0.1", 0x0a00_0001),
    ];
    for (s, n) in v4 {
        assert_eq!(parse_ipv4_u32(s.as_bytes()), Some(n), "{s}");
        assert_eq!(Ip::parse(s), Some(Ip::V4(n)), "{s}");
    }
    let v6 = [
        ("::", 0u128),
        ("::1", 1),
        ("1::", 1 << 112),
        ("2001:db8::1", 0x2001_0db8_0000_0000_0000_0000_0000_0001),
        ("1:2:3:4:5:6:7:8", 0x0001_0002_0003_0004_0005_0006_0007_0008),
        ("::1.2.3.4", 0x0102_0304),
        ("::ffff:1.2.3.4", 0xffff_0102_0304),
        ("1:2:3:4:5:6:1.2.3.4", 0x0001_0002_0003_0004_0005_0006_0102_0304),
        ("1:2:3:4:5:6:7::", 0x0001_0002_0003_0004_0005_0006_0007_0000),
        ("::2:3:4:5:6:7:8", 0x0000_0002_0003_0004_0005_0006_0007_0008),
    ];
    for (s, n) in v6 {
        assert_eq!(parse_ipv6_u128(s.as_bytes()), Some(n), "{s}");
        assert_eq!(Ip::parse(s), Some(Ip::V6(n)), "{s}");
    }
    let none = [
        "1.2.3", "1.2.3.4.5", "256.1.1.1", "01.2.3.4", "1..2.3", "", "a.b.c.d", " 1.2.3.4",
        "1.2.3.4 ", "1:2:3:4:5:6:7", "1:2:3:4:5:6:7:8:9", "1::2::3", "12345::", "g::", ":1", "1:",
        "fe80::1%eth0", "1.2.3.0004", "00.0.0.0", "::1.2.3.4:5",
    ];
    for s in none {
        assert_eq!(parse_ipv4_u32(s.as_bytes()), None, "{s}");
        assert_eq!(parse_ipv6_u128(s.as_bytes()), None, "{s}");
        assert!(Ip::parse(s).is_none(), "{s}");
    }
}

#[test]
fn addresses_have_keys() {
    let v4 = Ip::parse("1.2.3.4").unwrap();
    assert_eq!((v4.kind(), v4.hi(), v4.lo()), (1, 0, 0x0102_0304));
    let v6 = Ip::parse("2001:db8::ff").unwrap();
    assert_eq!((v6.kind(), v6.hi(), v6.lo()), (2, 0x2001_0db8_0000_0000, 0xff));
}

// ── Log lines ─────────────────────────────────────────────────────────────

#[test]
fn log_lines_depend_on_the_level() {
    let quiet = Logging::from_flags(0);
    assert!(!quiet.verbose());
    assert_eq!(quiet.log("12:00", "hello"), None);
    let verbose = Logging::from_flags(1);
    assert_eq!(verbose.log("12:00", "hello").as_deref(), Some("12:00 hello"));
    assert_eq!(verbose.log_debug("12:00", "hello"), None);
    let debug = Logging::from_flags(9);
    assert_eq!(debug.debug_level(), 2);
    assert!(debug.log_debug_at(2, "12:00", "x").is_some());
    assert!(debug.log_debug_at(3, "12:00", "x").is_none());
    assert!(Logging::init(false, 1).log_debug("t", "x").is_some());
}

#[test]
fn progress_is_told_in_a_line() {
    let line = progress_line(&ProgressLine {
        timestamp: "2026-05-08 14:23:01",
        month: "2026-05",
        files_done: 2,
        files_total: 10,
        lines_done: 12_345,
        percent: 42,
        lps: 1_500,
        eta: "eta 5s",
        checkpoint: "",
    });
    assert!(line.contains("2/10"));
    assert!(line.contains("42%"));
    assert!(line.contains("12.3k"));
}

// ── Configuration ─────────────────────────────────────────────────────────

fn nothing() -> Overrides {
    Overrides {
        site_name: None,
        log_glob: None,
        database: None,
        output_dir: None,
        geoip_db: None,
        top_n: None,
        enable_top_urls: None,
        enable_top_sites: None,
        enable_top_refs: None,
        enable_top_agents: None,
        checkpoint_minutes: None,
        anonymise_ips: None,
        bot_filter: None,
    }
}

#[test]
fn defaults_are_as_documented() {
    let c = Config::default();
    assert_eq!(c.site_name, "My Site");
    assert_eq!(c.log_glob, "");
    assert_eq!(c.database, "./webstat.db");
    assert_eq!(c.output_dir, "./output");
    assert_eq!(c.geoip_db, None);
    assert_eq!(c.top_n, 20);
    assert!(c.enable_top_urls && c.enable_top_sites && c.enable_top_refs && c.enable_top_agents);
    assert!(c.enable_all_time_unique_hosts && !c.vacuum_after_prune);
    assert!(c.bot_filter && !c.anonymise_ips);
    assert_eq!(c.checkpoint_minutes, 0);
    let p = c.processor_config();
    assert_eq!(p.top_n, 20);
    assert!(p.bot_filter);
}

#[test]
fn the_command_line_goes_before_the_file() {
    let mut file = Config::default();
    file.log_glob = "/a".to_string();
    file.top_n = 5;
    let mut args = nothing();
    args.top_n = Some(7);
    args.site_name = Some("S".to_string());
    args.bot_filter = Some(false);
    let c = build_config(Some(file), Some("x.yaml"), &args).unwrap();
    assert_eq!(c.log_glob, "/a");
    assert_eq!(c.top_n, 7);
    assert_eq!(c.site_name, "S");
    assert!(!c.bot_filter);
}

#[test]
fn a_log_source_has_to_be_given() {
    let e = build_config(None, None, &nothing()).err().unwrap();
    assert!(matches!(e, ConfigError::NothingGiven));
    assert_eq!(
        e.message(),
        "No config file provided and required option '--log-glob' is missing. Provide --log-glob, pass --config <FILE>, or place a webstat.yaml in the current directory."
    );
    let mut args = nothing();
    args.log_glob = Some("  ".to_string());
    assert!(matches!(build_config(None, None, &args), Err(ConfigError::NothingGiven)));
    let e = build_config(Some(Config::default()), Some("x.yaml"), &nothing()).err().unwrap();
    assert_eq!(
        e.message(),
        "No log source configured. Set 'log_glob' in x.yaml or pass --log-glob."
    );
    let e = build_config(Some(Config::default()), None, &nothing()).err().unwrap();
    assert_eq!(e.message(), "No log source configured. Set --log-glob.");
    args.log_glob = Some("/var/log/*".to_string());
    assert_eq!(build_config(None, None, &args).unwrap().log_glob, "/var/log/*");
}

#[test]
fn removed_keys_are_refused() {
    assert!(reject_legacy_log_keys("x.yaml", false, false).is_ok());
    for (file, dir) in [(true, false), (false, true)] {
        let e = reject_legacy_log_keys("x.yaml", file, dir).err().unwrap();
        assert_eq!(
            e.message(),
            "x.yaml uses removed keys 'log_file'/'log_dir'. Use only 'log_glob' (comma-separated patterns), e.g. log_glob: /var/log/nginx/access.log,/dump/logs/access*"
        );
    }
}

#[test]
fn the_text_of_a_configuration_file_is_looked_at() {
    assert!(check_config_text("x.yaml", "log_glob: /var/log/*\ntop_n: 5\n").is_ok());
    assert!(check_config_text("x.yaml", "- log_file\n- log_dir\n").is_ok());
    assert!(check_config_text("x.yaml", "").is_ok());
    for text in ["log_file: a\n", "top_n: 1\nlog_dir: b\n"] {
        let e = check_config_text("x.yaml", text).err().unwrap();
        assert!(matches!(e, ConfigError::LegacyKeys { ref config } if config == "x.yaml"));
    }
    let e = check_config_text("x.yaml", "a: [1, 2").err().unwrap();
    assert_eq!(e.message(), "Failed to parse config file 'x.yaml'");
}

#[test]
fn paths_are_relative_to_the_configuration_file() {
    for (base, path) in [
        ("/etc/webstat", "a.db"),
        ("/etc/webstat/", "a.db"),
        ("/etc/webstat", "/var/a.db"),
        (".", "./a.db"),
        ("", "a.db"),
        ("conf", ""),
    ] {
        let expected = std::path::Path::new(base).join(path);
        assert_eq!(resolve_path(base, path), expected.to_str().unwrap(), "{base} {path}");
    }
    assert_eq!(resolve_glob_list("/etc", " a*, ,/b ,c"), "/etc/a*,/b,/etc/c");
    assert_eq!(resolve_glob_list("/etc", " , "), "");
}
