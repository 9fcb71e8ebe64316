//! The configuration: defaults, what the command line overrides, and what must be there.

use vstd::prelude::*;
use vstd::string::*;

use crate::aggregator::discovery::{
    comma_parts, patterns_of, split_patterns, texts_of, trim, trimmed,
};
use crate::aggregator::ProcessorConfig;

verus! {

/// What the program is set to do.
#[derive(Debug)]
pub struct Config {
    pub site_name: String,
    /// Comma-separated glob patterns of log files.
    pub log_glob: String,
    pub database: String,
    pub output_dir: String,
    /// A country database.
    pub geoip_db: Option<String>,
    pub top_n: usize,
    pub enable_top_urls: bool,
    pub enable_top_sites: bool,
    pub enable_top_refs: bool,
    pub enable_top_agents: bool,
    /// Whether the addresses of all time are kept, which can take much room.
    pub enable_all_time_unique_hosts: bool,
    /// Whether the database is compacted once tables were pruned.
    pub vacuum_after_prune: bool,
    pub bot_filter: bool,
    /// How often totals are stored in between, in minutes; zero for never.
    pub checkpoint_minutes: u64,
    pub anonymise_ips: bool,
}

/// A configuration by its values.
pub struct ConfigView {
    pub site_name: Seq<char>,
    pub log_glob: Seq<char>,
    pub database: Seq<char>,
    pub output_dir: Seq<char>,
    pub geoip_db: Option<Seq<char>>,
    pub top_n: usize,
    pub enable_top_urls: bool,
    pub enable_top_sites: bool,
    pub enable_top_refs: bool,
    pub enable_top_agents: bool,
    pub enable_all_time_unique_hosts: bool,
    pub vacuum_after_prune: bool,
    pub bot_filter: bool,
    pub checkpoint_minutes: u64,
    pub anonymise_ips: bool,
}

/// A text that may be there, by what it holds.
pub open spec fn opt_text(s: Option<String>) -> Option<Seq<char>> {
    match s {
        Some(t) => Some(t@),
        None => None,
    }
}

impl Config {
    pub open spec fn view(&self) -> ConfigView {
        ConfigView {
            site_name: self.site_name@,
            log_glob: self.log_glob@,
            database: self.database@,
            output_dir: self.output_dir@,
            geoip_db: opt_text(self.geoip_db),
            top_n: self.top_n,
            enable_top_urls: self.enable_top_urls,
            enable_top_sites: self.enable_top_sites,
            enable_top_refs: self.enable_top_refs,
            enable_top_agents: self.enable_top_agents,
            enable_all_time_unique_hosts: self.enable_all_time_unique_hosts,
            vacuum_after_prune: self.vacuum_after_prune,
            bot_filter: self.bot_filter,
            checkpoint_minutes: self.checkpoint_minutes,
            anonymise_ips: self.anonymise_ips,
        }
    }

    /// What a processor is set to do.
    pub fn processor_config(&self) -> (r: ProcessorConfig)
        ensures
            r == (ProcessorConfig {
                top_n: self.top_n,
                bot_filter: self.bot_filter,
                enable_top_urls: self.enable_top_urls,
                enable_top_sites: self.enable_top_sites,
                enable_top_refs: self.enable_top_refs,
                enable_top_agents: self.enable_top_agents,
            }),
    {
        ProcessorConfig {
            top_n: self.top_n,
            bot_filter: self.bot_filter,
            enable_top_urls: self.enable_top_urls,
            enable_top_sites: self.enable_top_sites,
            enable_top_refs: self.enable_top_refs,
            enable_top_agents: self.enable_top_agents,
        }
    }
}

/// What holds where nothing is set.
pub open spec fn default_config() -> ConfigView {
    ConfigView {
        site_name: "My Site"@,
        log_glob: Seq::empty(),
        database: "./webstat.db"@,
        output_dir: "./output"@,
        geoip_db: None,
        top_n: 20,
        enable_top_urls: true,
        enable_top_sites: true,
        enable_top_refs: true,
        enable_top_agents: true,
        enable_all_time_unique_hosts: true,
        vacuum_after_prune: false,
        bot_filter: true,
        checkpoint_minutes: 0,
        anonymise_ips: false,
    }
}

impl Default for Config {
    fn default() -> (r: Config)
        ensures
            r@ == default_config(),
    {
        let r = Config {
            site_name: "My Site".to_owned(),
            log_glob: String::new(),
            database: "./webstat.db".to_owned(),
            output_dir: "./output".to_owned(),
            geoip_db: None,
            top_n: 20,
            enable_top_urls: true,
            enable_top_sites: true,
            enable_top_refs: true,
            enable_top_agents: true,
            enable_all_time_unique_hosts: true,
            vacuum_after_prune: false,
            bot_filter: true,
            checkpoint_minutes: 0,
            anonymise_ips: false,
        };
        assert(r.log_glob@ =~= Seq::<char>::empty());
        r
    }
}

/// What the command line sets.
#[derive(Debug)]
pub struct Overrides {
    pub site_name: Option<String>,
    pub log_glob: Option<String>,
    pub database: Option<String>,
    pub output_dir: Option<String>,
    pub geoip_db: Option<String>,
    pub top_n: Option<usize>,
    pub enable_top_urls: Option<bool>,
    pub enable_top_sites: Option<bool>,
    pub enable_top_refs: Option<bool>,
    pub enable_top_agents: Option<bool>,
    pub checkpoint_minutes: Option<u64>,
    pub anonymise_ips: Option<bool>,
    pub bot_filter: Option<bool>,
}

/// A value that is set, or else another.
pub open spec fn set_or<T>(v: Option<T>, other: T) -> T {
    match v {
        Some(x) => x,
        None => other,
    }
}

/// A configuration with what the command line sets.
pub open spec fn overridden(c: ConfigView, o: Overrides) -> ConfigView {
    ConfigView {
        site_name: set_or(opt_text(o.site_name), c.site_name),
        log_glob: set_or(opt_text(o.log_glob), c.log_glob),
        database: set_or(opt_text(o.database), c.database),
        output_dir: set_or(opt_text(o.output_dir), c.output_dir),
        geoip_db: match o.geoip_db {
            Some(p) => Some(p@),
            None => c.geoip_db,
        },
        top_n: set_or(o.top_n, c.top_n),
        enable_top_urls: set_or(o.enable_top_urls, c.enable_top_urls),
        enable_top_sites: set_or(o.enable_top_sites, c.enable_top_sites),
        enable_top_refs: set_or(o.enable_top_refs, c.enable_top_refs),
        enable_top_agents: set_or(o.enable_top_agents, c.enable_top_agents),
        enable_all_time_unique_hosts: c.enable_all_time_unique_hosts,
        vacuum_after_prune: c.vacuum_after_prune,
        checkpoint_minutes: set_or(o.checkpoint_minutes, c.checkpoint_minutes),
        anonymise_ips: set_or(o.anonymise_ips, c.anonymise_ips),
        bot_filter: set_or(o.bot_filter, c.bot_filter),
    }
}

fn text_or(v: &Option<String>, other: String) -> (r: String)
    ensures
        r@ == set_or(opt_text(*v), other@),
{
    match v {
        Some(t) => t.clone(),
        None => other,
    }
}

fn flag_or(v: Option<bool>, other: bool) -> (r: bool)
    ensures
        r == set_or(v, other),
{
    match v {
        Some(b) => b,
        None => other,
    }
}

fn apply_overrides(c: Config, o: &Overrides) -> (r: Config)
    ensures
        r@ == overridden(c@, *o),
{
    Config {
        site_name: text_or(&o.site_name, c.site_name),
        log_glob: text_or(&o.log_glob, c.log_glob),
        database: text_or(&o.database, c.database),
        output_dir: text_or(&o.output_dir, c.output_dir),
        geoip_db: match &o.geoip_db {
            Some(p) => Some(p.clone()),
            None => c.geoip_db,
        },
        top_n: match o.top_n {
            Some(n) => n,
            None => c.top_n,
        },
        enable_top_urls: flag_or(o.enable_top_urls, c.enable_top_urls),
        enable_top_sites: flag_or(o.enable_top_sites, c.enable_top_sites),
        enable_top_refs: flag_or(o.enable_top_refs, c.enable_top_refs),
        enable_top_agents: flag_or(o.enable_top_agents, c.enable_top_agents),
        enable_all_time_unique_hosts: c.enable_all_time_unique_hosts,
        vacuum_after_prune: c.vacuum_after_prune,
        bot_filter: flag_or(o.bot_filter, c.bot_filter),
        checkpoint_minutes: match o.checkpoint_minutes {
            Some(n) => n,
            None => c.checkpoint_minutes,
        },
        anonymise_ips: flag_or(o.anonymise_ips, c.anonymise_ips),
    }
}

/// What is wrong with a configuration.
#[derive(Debug)]
pub enum ConfigError {
    /// There is no configuration file and no log pattern on the command line.
    NothingGiven,
    /// There is no log pattern; the configuration file that was asked for lacks it.
    NoLogSource { config: Option<String> },
    /// The configuration file uses keys that are gone.
    LegacyKeys { config: String },
    /// The configuration file is not YAML.
    Malformed { config: String },
}

/// What is wrong, in words.
pub open spec fn error_text(e: ConfigError) -> Seq<char> {
    match e {
        ConfigError::NothingGiven =>
            "No config file provided and required option '--log-glob' is missing. Provide --log-glob, pass --config <FILE>, or place a webstat.yaml in the current directory."@,
        ConfigError::NoLogSource { config } => match config {
            Some(path) => "No log source configured. Set 'log_glob' in "@ + path@
                + " or pass --log-glob."@,
            None => "No log source configured. Set --log-glob."@,
        },
        ConfigError::LegacyKeys { config } => config@
            + " uses removed keys 'log_file'/'log_dir'. Use only 'log_glob' (comma-separated patterns), e.g. log_glob: /var/log/nginx/access.log,/dump/logs/access*"@,
        ConfigError::Malformed { config } => "Failed to parse config file '"@ + config@ + "'"@,
    }
}

impl ConfigError {
    /// What is wrong, in words.
    pub fn message(&self) -> (r: String)
        ensures
            r@ == error_text(*self),
    {
        match self {
            ConfigError::NothingGiven =>
                "No config file provided and required option '--log-glob' is missing. Provide --log-glob, pass --config <FILE>, or place a webstat.yaml in the current directory.".to_owned(),
            ConfigError::NoLogSource { config } => match config {
                Some(path) => {
                    let mut s = "No log source configured. Set 'log_glob' in ".to_owned();
                    s.append(path.as_str());
                    s.append(" or pass --log-glob.");
                    s
                },
                None => "No log source configured. Set --log-glob.".to_owned(),
            },
            ConfigError::LegacyKeys { config } => {
                let mut s = config.clone();
                s.append(
                    " uses removed keys 'log_file'/'log_dir'. Use only 'log_glob' (comma-separated patterns), e.g. log_glob: /var/log/nginx/access.log,/dump/logs/access*",
                );
                s
            },
            ConfigError::Malformed { config } => {
                let mut s = "Failed to parse config file '".to_owned();
                s.append(config.as_str());
                s.append("'");
                s
            },
        }
    }
}

/// A text is only white space.
pub open spec fn is_blank(s: Seq<char>) -> bool {
    trimmed(s).len() == 0
}

fn blank(s: &str) -> (r: bool)
    ensures
        r == is_blank(s@),
{
    trim(s).unicode_len() == 0
}

/// The configuration of a run. `loaded` is what a configuration file holds where there is one,
/// `explicit` the path of the file that was asked for.
pub fn build_config(loaded: Option<Config>, explicit: Option<&str>, args: &Overrides) -> (r: Result<
    Config,
    ConfigError,
>)
    ensures
        ({
            let base = match loaded {
                Some(c) => c@,
                None => default_config(),
            };
            let asked = set_or(opt_text(args.log_glob), Seq::empty());
            let full = overridden(base, *args);
            match r {
                Ok(c) => c@ == full && !(loaded is None && explicit is None && is_blank(asked))
                    && !is_blank(full.log_glob),
                Err(ConfigError::NothingGiven) => loaded is None && explicit is None && is_blank(
                    asked,
                ),
                Err(ConfigError::NoLogSource { config }) => !(loaded is None && explicit is None
                    && is_blank(asked)) && is_blank(full.log_glob) && match (config, explicit) {
                    (Some(a), Some(b)) => a@ == b@,
                    (None, None) => true,
                    _ => false,
                },
                Err(_) => false,
            }
        }),
{
    let nothing: bool = loaded.is_none() && explicit.is_none();
    let base = match loaded {
        Some(c) => c,
        None => Config::default(),
    };
    let cfg = apply_overrides(base, args);
    if nothing {
        let asked_blank: bool = match &args.log_glob {
            Some(g) => blank(g.as_str()),
            None => true,
        };
        if asked_blank {
            return Err(ConfigError::NothingGiven);
        }
    }
    if blank(cfg.log_glob.as_str()) {
        return Err(
            ConfigError::NoLogSource {
                config: match explicit {
                    Some(p) => Some(p.to_owned()),
                    None => None,
                },
            },
        );
    }
    Ok(cfg)
}

/// Refuses a configuration file that has the keys of earlier versions.
pub fn reject_legacy_log_keys(path: &str, has_log_file: bool, has_log_dir: bool) -> (r: Result<
    (),
    ConfigError,
>)
    ensures
        match r {
            Ok(_) => !has_log_file && !has_log_dir,
            Err(ConfigError::LegacyKeys { config }) => (has_log_file || has_log_dir) && config@
                == path@,
            Err(_) => false,
        },
{
    if has_log_file || has_log_dir {
        return Err(ConfigError::LegacyKeys { config: path.to_owned() });
    }
    Ok(())
}

/// The keys that `serde_yaml::from_str` reads from a text as a `Value`: those of its mapping that
/// are texts, none where it is no mapping. `None` where the text is not YAML.
pub uninterp spec fn yaml_keys(text: Seq<char>) -> Option<Set<Seq<char>>>;

/// `serde_yaml::from_str` into a `Value`, and `Mapping::contains_key` where it is a mapping: whether
/// a text has a key.
#[verifier::external_body]
fn yaml_has_key(text: &str, key: &str) -> (r: Option<bool>)
    ensures
        r == match yaml_keys(text@) {
            Some(keys) => Some(keys.contains(key@)),
            None => None,
        },
{
    let parsed: serde_yaml::Value = serde_yaml::from_str(text).ok()?;
    match parsed {
        serde_yaml::Value::Mapping(map) => {
            Some(map.contains_key(serde_yaml::Value::String(key.into())))
        },
        _ => Some(false),
    }
}

/// Refuses the text of a configuration file that is not YAML or has the keys of earlier versions.
pub fn check_config_text(path: &str, text: &str) -> (r: Result<(), ConfigError>)
    ensures
        match yaml_keys(text@) {
            None => r matches Err(ConfigError::Malformed { config }) && config@ == path@,
            Some(keys) => if keys.contains("log_file"@) || keys.contains("log_dir"@) {
                r matches Err(ConfigError::LegacyKeys { config }) && config@ == path@
            } else {
                r is Ok
            },
        },
{
    match (yaml_has_key(text, "log_file"), yaml_has_key(text, "log_dir")) {
        (Some(has_log_file), Some(has_log_dir)) => reject_legacy_log_keys(
            path,
            has_log_file,
            has_log_dir,
        ),
        _ => Err(ConfigError::Malformed { config: path.to_owned() }),
    }
}

/// A path that is taken relative to a directory unless it is absolute.
pub open spec fn resolved(base: Seq<char>, path: Seq<char>) -> Seq<char> {
    if (path.len() > 0 && path[0] == '/') || base.len() == 0 {
        path
    } else if base.last() == '/' {
        base + path
    } else {
        base + "/"@ + path
    }
}

/// A path that is taken relative to a directory unless it is absolute.
pub fn resolve_path(base: &str, path: &str) -> (r: String)
    ensures
        r@ == resolved(base@, path@),
{
    let n: usize = base.unicode_len();
    if (path.unicode_len() > 0 && path.get_char(0) == '/') || n == 0 {
        return path.to_owned();
    }
    let mut s = base.to_owned();
    if base.get_char(n - 1) != '/' {
        s.append("/");
    }
    s.append(path);
    s
}

/// Patterns, each taken relative to a directory, with commas in between.
pub open spec fn resolved_list(base: Seq<char>, patterns: Seq<Seq<char>>) -> Seq<char>
    decreases patterns.len(),
{
    if patterns.len() == 0 {
        Seq::empty()
    } else if patterns.len() == 1 {
        resolved(base, patterns[0])
    } else {
        resolved_list(base, patterns.drop_last()) + ","@ + resolved(base, patterns.last())
    }
}

/// A comma-separated list of patterns, each taken relative to a directory.
pub fn resolve_glob_list(base: &str, globs: &str) -> (r: String)
    ensures
        r@ == resolved_list(base@, patterns_of(comma_parts(globs@))),
{
    let patterns = split_patterns(globs);
    let ghost all = texts_of(patterns@);
    let mut s = String::new();
    assert(s@ =~= resolved_list(base@, all.take(0)));
    let mut i: usize = 0;
    while i < patterns.len()
        invariant
            0 <= i <= patterns@.len(),
            all == texts_of(patterns@),
            s@ == resolved_list(base@, all.take(i as int)),
        decreases patterns@.len() - i,
    {
        let ghost before = s@;
        proof {
            assert(all.take(i + 1).drop_last() =~= all.take(i as int));
            assert(all.take(i + 1).last() == patterns@[i as int]@);
        }
        if i > 0 {
            s.append(",");
        }
        let p = resolve_path(base, patterns[i].as_str());
        s.append(p.as_str());
        assert(s@ =~= resolved_list(base@, all.take(i + 1)));
        i += 1;
    }
    assert(all.take(i as int) =~= all);
    s
}

} // verus!
