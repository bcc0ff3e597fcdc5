//! Project configuration (`hawk.toml`).
//!
//! Precedence is defaults, then the project file, then command-line
//! arguments. This module turns the file's raw values into a validated
//! configuration; reading and decoding the TOML text happens at the edge.

use vstd::prelude::*;
use vstd::string::*;
use crate::finding::{severity_label, Severity};
use crate::paths::{join_path, spec_join};
use crate::taint::opt_text;
use crate::text::{chars_of, push_char, push_str, str_eq};

verus! {

pub const CONFIG_FILE_NAME: &'static str = "hawk.toml";

pub const DATA_DIR_NAME: &'static str = ".hawk";

#[derive(Debug, Clone, Copy, PartialEq, Eq, Structural)]
pub enum ReportFormat {
    Auto,
    Terminal,
    Json,
    Sarif,
    Html,
}

#[derive(Debug, PartialEq, Eq)]
pub struct ReportConfig {
    pub format: ReportFormat,
    pub output: Option<String>,
}

impl Default for ReportConfig {
    fn default() -> (r: Self)
        ensures
            r.format == ReportFormat::Auto,
            r.output is None,
    {
        ReportConfig { format: ReportFormat::Auto, output: None }
    }
}

#[derive(Debug, Clone, Copy, PartialEq, Eq, Default)]
pub struct ExitPolicy {
    /// Findings at or above this severity trigger the automation exit code 2;
    /// `None` means any finding does (the default).
    pub exit_on_severity: Option<Severity>,
}

#[derive(Debug, PartialEq, Eq)]
pub struct Config {
    /// Extra paths to scan (relative to the config root).
    pub include_paths: Vec<String>,
    /// Exclude path patterns (relative to the config root).
    pub exclude: Vec<String>,
    /// Selected rule packs; empty selects all built-in packs.
    pub packs: Vec<String>,
    /// Directories searched for user rule packs, in order.
    pub pack_dirs: Vec<String>,
    pub report: ReportConfig,
    pub policy: ExitPolicy,
    /// Path of the config file that produced this config, if any.
    pub source: Option<String>,
    /// The directory that owns this config (project root), if loaded from a file.
    pub root: Option<String>,
}

impl Default for Config {
    fn default() -> (r: Self)
        ensures
            r.include_paths@.len() == 0,
            r.exclude@.len() == 0,
            r.packs@.len() == 0,
            r.pack_dirs@.len() == 0,
            r.report.format == ReportFormat::Auto,
            r.report.output is None,
            r.policy.exit_on_severity is None,
            r.source is None,
            r.root is None,
    {
        Config {
            include_paths: Vec::new(),
            exclude: Vec::new(),
            packs: Vec::new(),
            pack_dirs: Vec::new(),
            report: ReportConfig::default(),
            policy: ExitPolicy { exit_on_severity: None },
            source: None,
            root: None,
        }
    }
}

/// Why a configuration could not be loaded.
#[derive(Debug, PartialEq, Eq)]
pub enum ConfigError {
    CurrentDir(String),
    NoHome,
    Read { path: String, source: String },
    Parse { path: String, source: String },
    Validate { message: String },
}

/// The values of a `hawk.toml` file, as decoded from TOML.
#[derive(Debug, Default)]
pub struct RawConfig {
    pub include_paths: Option<Vec<String>>,
    pub exclude: Option<Vec<String>>,
    pub packs: Option<Vec<String>>,
    pub pack_dirs: Option<Vec<String>>,
    pub report: Option<RawReport>,
    pub policy: Option<RawPolicy>,
}

/// The `[report]` table.
#[derive(Debug, Default)]
pub struct RawReport {
    pub format: Option<String>,
    pub output: Option<String>,
}

/// The `[policy]` table.
#[derive(Debug, Default)]
pub struct RawPolicy {
    pub exit_on_severity: Option<String>,
}

/// The directory part of a path, as `Path::parent` gives it.
pub uninterp spec fn path_parent(path: Seq<char>) -> Option<Seq<char>>;

/// `std::path::Path::parent`: the path without its final component, or
/// `None` for a root or empty path. The contract names the result and
/// states only that it is shorter than the path (a component was dropped);
/// it does not spell out the component rules.
#[verifier::external_body]
pub fn parent_path(path: &str) -> (r: Option<String>)
    ensures
        opt_text(r) == path_parent(path@),
        r matches Some(p) ==> p@.len() < path@.len(),
{
    std::path::Path::new(path).parent().map(|p| p.to_string_lossy().into_owned())
}

/// A Unix path is absolute when it starts at the root.
pub open spec fn is_absolute(path: Seq<char>) -> bool {
    path.len() > 0 && path[0] == '/'
}

/// Where a path named in the config file at `path` points: absolute paths
/// stay, relative ones are taken from the file's directory (or `.`).
pub open spec fn anchored(path: Seq<char>, entry: Seq<char>) -> Seq<char> {
    if is_absolute(entry) {
        entry
    } else {
        spec_join(
            match path_parent(path) {
                Some(p) => p,
                None => "."@,
            },
            entry,
        )
    }
}

fn anchor(dir: &Option<String>, entry: &String) -> (r: String)
    ensures
        r@ == (if is_absolute(entry@) {
            entry@
        } else {
            spec_join(
                match opt_text(*dir) {
                    Some(p) => p,
                    None => "."@,
                },
                entry@,
            )
        }),
{
    let cs = chars_of(entry.as_str());
    if cs.len() > 0 && cs[0] == '/' {
        return entry.clone();
    }
    match dir {
        Some(d) => join_path(d.as_str(), entry.as_str()),
        None => join_path(".", entry.as_str()),
    }
}

/// ASCII letters lowered, everything else kept (`str::to_ascii_lowercase`).
pub open spec fn ascii_lower(s: Seq<char>) -> Seq<char> {
    s.map_values(|c: char| if 'A' <= c && c <= 'Z' { ((c as u32) + 32) as char } else { c })
}

/// The severity named (in any ASCII case) by `value`.
pub open spec fn severity_named(value: Seq<char>) -> Option<Severity> {
    let v = ascii_lower(value);
    if v == "info"@ {
        Some(Severity::Info)
    } else if v == "low"@ {
        Some(Severity::Low)
    } else if v == "medium"@ {
        Some(Severity::Medium)
    } else if v == "high"@ {
        Some(Severity::High)
    } else if v == "critical"@ {
        Some(Severity::Critical)
    } else {
        None
    }
}

/// Each severity's label, lowered: `info`, `low`, `medium`, `high`,
/// `critical`.
pub proof fn lemma_lowered_severity_labels()
    ensures
        ascii_lower(severity_label(Severity::Info)) == "info"@,
        ascii_lower(severity_label(Severity::Low)) == "low"@,
        ascii_lower(severity_label(Severity::Medium)) == "medium"@,
        ascii_lower(severity_label(Severity::High)) == "high"@,
        ascii_lower(severity_label(Severity::Critical)) == "critical"@,
{
    reveal_strlit("INFO");
    reveal_strlit("LOW");
    reveal_strlit("MEDIUM");
    reveal_strlit("HIGH");
    reveal_strlit("CRITICAL");
    reveal_strlit("info");
    reveal_strlit("low");
    reveal_strlit("medium");
    reveal_strlit("high");
    reveal_strlit("critical");
    assert(ascii_lower("INFO"@) =~= "info"@);
    assert(ascii_lower("LOW"@) =~= "low"@);
    assert(ascii_lower("MEDIUM"@) =~= "medium"@);
    assert(ascii_lower("HIGH"@) =~= "high"@);
    assert(ascii_lower("CRITICAL"@) =~= "critical"@);
}

/// A policy severity names the severity whose label it spells in any ASCII
/// case, and nothing else: `medium`, `Medium` and `MEDIUM` all name medium.
pub proof fn lemma_policy_severity_names_its_label(value: Seq<char>, s: Severity)
    ensures
        (severity_named(value) == Some(s)) <==> (ascii_lower(value) == ascii_lower(severity_label(s))),
        severity_named(severity_label(s)) == Some(s),
{
    lemma_lowered_severity_labels();
    reveal_strlit("info");
    reveal_strlit("low");
    reveal_strlit("medium");
    reveal_strlit("high");
    reveal_strlit("critical");
    assert("info"@ != "low"@ && "info"@ != "high"@ && "low"@ != "high"@) by {
        assert("info"@[0] != "low"@[0] && "info"@[0] != "high"@[0] && "low"@[0] != "high"@[0]);
    }
    assert("medium"@ != "info"@ && "medium"@ != "low"@ && "medium"@ != "high"@ && "medium"@ != "critical"@) by {
        assert("medium"@[0] != "info"@[0] && "medium"@[0] != "low"@[0] && "medium"@[0] != "high"@[0]);
        assert("medium"@[0] != "critical"@[0]);
    }
    assert("critical"@ != "info"@ && "critical"@ != "low"@ && "critical"@ != "high"@) by {
        assert("critical"@[0] != "info"@[0] && "critical"@[0] != "low"@[0] && "critical"@[0] != "high"@[0]);
    }
}

fn to_ascii_lowercase(value: &str) -> (r: String)
    ensures
        r@ == ascii_lower(value@),
{
    let mut out = String::new();
    let ghost v = value@;
    for c in it: value.chars()
        invariant
            it.seq() == v,
            v == value@,
            out@ == ascii_lower(v.subrange(0, it.index() as int)),
    {
        let lower = if 'A' <= c && c <= 'Z' {
            proof {
                assert(c as u32 + 32 <= 0x7a);
            }
            ((c as u32) + 32) as u8 as char
        } else {
            c
        };
        proof {
            if 'A' <= c && c <= 'Z' {
                assert(((c as u32) + 32) as u8 as char == ((c as u32) + 32) as char);
            }
        }
        push_char(&mut out, lower);
        assert(out@ =~= ascii_lower(v.subrange(0, it.index() + 1)));
    }
    proof {
        assert(v.subrange(0, v.len() as int) =~= v);
    }
    out
}

/// Parses a severity name, in any ASCII case; the unknown value is returned
/// as the error.
pub fn parse_severity(value: &str) -> (r: Result<Severity, String>)
    ensures
        match r {
            Ok(s) => severity_named(value@) == Some(s),
            Err(e) => severity_named(value@) is None && e@ == value@,
        },
{
    let lower = to_ascii_lowercase(value);
    let l = lower.as_str();
    if str_eq(l, "info") {
        Ok(Severity::Info)
    } else if str_eq(l, "low") {
        Ok(Severity::Low)
    } else if str_eq(l, "medium") {
        Ok(Severity::Medium)
    } else if str_eq(l, "high") {
        Ok(Severity::High)
    } else if str_eq(l, "critical") {
        Ok(Severity::Critical)
    } else {
        Err(value.to_owned())
    }
}

/// The report format named by `value`.
pub open spec fn format_named(value: Seq<char>) -> Option<ReportFormat> {
    if value == "auto"@ {
        Some(ReportFormat::Auto)
    } else if value == "terminal"@ {
        Some(ReportFormat::Terminal)
    } else if value == "json"@ {
        Some(ReportFormat::Json)
    } else if value == "sarif"@ {
        Some(ReportFormat::Sarif)
    } else if value == "html"@ {
        Some(ReportFormat::Html)
    } else {
        None
    }
}

pub open spec fn unknown_format_message(format: Seq<char>) -> Seq<char> {
    "unknown report format '"@ + format + "' (expected auto, terminal, json, sarif, html)"@
}

pub open spec fn unknown_severity_message(value: Seq<char>) -> Seq<char> {
    "unknown severity '"@ + value + "' in policy.exit-on-severity (expected info, low, medium, high, critical)"@
}

pub open spec fn strings_of(v: Seq<String>) -> Seq<Seq<char>> {
    v.map_values(|x: String| x@)
}

pub open spec fn opt_strings(v: Option<Vec<String>>) -> Option<Seq<Seq<char>>> {
    match v {
        Some(x) => Some(strings_of(x@)),
        None => None,
    }
}

/// The error, if any, that validating `raw` reports: an unknown report
/// format is reported before an unknown severity.
pub open spec fn raw_error(raw: RawConfig) -> Option<Seq<char>> {
    let format_error = match raw.report {
        Some(rep) => match rep.format {
            Some(f) => if format_named(f@) is None {
                Some(unknown_format_message(f@))
            } else {
                None
            },
            None => None,
        },
        None => None,
    };
    if format_error is Some {
        format_error
    } else {
        match raw.policy {
            Some(pol) => match pol.exit_on_severity {
                Some(level) => if severity_named(level@) is None {
                    Some(unknown_severity_message(level@))
                } else {
                    None
                },
                None => None,
            },
            None => None,
        }
    }
}

/// `config` is what `raw`, read from the file at `path`, configures.
pub open spec fn configures(config: Config, raw: RawConfig, path: Seq<char>) -> bool {
    &&& opt_text(config.source) == Some(path)
    &&& opt_text(config.root) == path_parent(path)
    &&& strings_of(config.include_paths@) == (match opt_strings(raw.include_paths) {
        Some(v) => v,
        None => Seq::empty(),
    })
    &&& strings_of(config.exclude@) == (match opt_strings(raw.exclude) {
        Some(v) => v,
        None => Seq::empty(),
    })
    &&& strings_of(config.packs@) == (match opt_strings(raw.packs) {
        Some(v) => v,
        None => Seq::empty(),
    })
    &&& strings_of(config.pack_dirs@) == (match opt_strings(raw.pack_dirs) {
        Some(v) => v.map_values(|d: Seq<char>| anchored(path, d)),
        None => Seq::empty(),
    })
    &&& config.report.format == (match raw.report {
        Some(rep) => match rep.format {
            Some(f) => match format_named(f@) {
                Some(k) => k,
                None => ReportFormat::Auto,
            },
            None => ReportFormat::Auto,
        },
        None => ReportFormat::Auto,
    })
    &&& opt_text(config.report.output) == (match raw.report {
        Some(rep) => match rep.output {
            Some(o) => Some(anchored(path, o@)),
            None => None,
        },
        None => None,
    })
    &&& config.policy.exit_on_severity == (match raw.policy {
        Some(pol) => match pol.exit_on_severity {
            Some(level) => severity_named(level@),
            None => None,
        },
        None => None,
    })
}

fn anchor_all(dir: &Option<String>, entries: Vec<String>, Ghost(path): Ghost<Seq<char>>) -> (r: Vec<String>)
    requires
        opt_text(*dir) == path_parent(path),
    ensures
        strings_of(r@) == strings_of(entries@).map_values(|d: Seq<char>| anchored(path, d)),
{
    let mut out: Vec<String> = Vec::new();
    let mut i: usize = 0;
    while i < entries.len()
        invariant
            i <= entries@.len(),
            opt_text(*dir) == path_parent(path),
            strings_of(out@) == strings_of(entries@).map_values(|d: Seq<char>| anchored(path, d)).subrange(0, i as int),
        decreases entries@.len() - i,
    {
        let a = anchor(dir, &entries[i]);
        let ghost prev = out@;
        out.push(a);
        assert(strings_of(out@) =~= strings_of(prev).push(anchored(path, entries@[i as int]@)));
        i = i + 1;
        assert(strings_of(out@) =~= strings_of(entries@).map_values(|d: Seq<char>| anchored(path, d)).subrange(0, i as int));
    }
    assert(strings_of(entries@).map_values(|d: Seq<char>| anchored(path, d)).subrange(0, entries@.len() as int)
        =~= strings_of(entries@).map_values(|d: Seq<char>| anchored(path, d)));
    out
}

fn parse_format(value: &str) -> (r: Option<ReportFormat>)
    ensures
        r == format_named(value@),
{
    if str_eq(value, "auto") {
        Some(ReportFormat::Auto)
    } else if str_eq(value, "terminal") {
        Some(ReportFormat::Terminal)
    } else if str_eq(value, "json") {
        Some(ReportFormat::Json)
    } else if str_eq(value, "sarif") {
        Some(ReportFormat::Sarif)
    } else if str_eq(value, "html") {
        Some(ReportFormat::Html)
    } else {
        None
    }
}

impl Config {
    /// Validates the raw values of the config file at `path`: relative
    /// pack directories and report output are anchored at the file's
    /// directory; an unknown report format or severity is an error.
    pub fn from_raw(raw: RawConfig, path: &str) -> (r: Result<Config, ConfigError>)
        ensures
            match r {
                Ok(config) => raw_error(raw) is None && configures(config, raw, path@),
                Err(ConfigError::Validate { message }) => raw_error(raw) == Some(message@),
                Err(_) => false,
            },
    {
        let ghost raw0 = raw;
        let dir = parent_path(path);
        let mut config = Config::default();
        proof {
            assert(strings_of(config.include_paths@) =~= Seq::<Seq<char>>::empty());
            assert(strings_of(config.exclude@) =~= Seq::<Seq<char>>::empty());
            assert(strings_of(config.packs@) =~= Seq::<Seq<char>>::empty());
            assert(strings_of(config.pack_dirs@) =~= Seq::<Seq<char>>::empty());
        }
        config.source = Some(path.to_owned());
        config.root = match &dir {
            Some(d) => Some(d.clone()),
            None => None,
        };
        let RawConfig { include_paths, exclude, packs, pack_dirs, report, policy } = raw;
        if let Some(v) = include_paths {
            config.include_paths = v;
        }
        if let Some(v) = exclude {
            config.exclude = v;
        }
        if let Some(v) = packs {
            config.packs = v;
        }
        if let Some(v) = pack_dirs {
            config.pack_dirs = anchor_all(&dir, v, Ghost(path@));
        }
        if let Some(rep) = report {
            if let Some(format) = rep.format {
                match parse_format(format.as_str()) {
                    Some(k) => {
                        config.report.format = k;
                    },
                    None => {
                        let mut message = "unknown report format '".to_owned();
                        push_str(&mut message, format.as_str());
                        push_str(&mut message, "' (expected auto, terminal, json, sarif, html)");
                        return Err(ConfigError::Validate { message });
                    },
                }
            }
            if let Some(output) = rep.output {
                config.report.output = Some(anchor(&dir, &output));
            }
        }
        if let Some(pol) = policy {
            if let Some(level) = pol.exit_on_severity {
                match parse_severity(level.as_str()) {
                    Ok(s) => {
                        config.policy.exit_on_severity = Some(s);
                    },
                    Err(unknown) => {
                        let mut message = "unknown severity '".to_owned();
                        push_str(&mut message, unknown.as_str());
                        push_str(
                            &mut message,
                            "' in policy.exit-on-severity (expected info, low, medium, high, critical)",
                        );
                        return Err(ConfigError::Validate { message });
                    },
                }
            }
        }
        Ok(config)
    }

    /// The effective project root: the config's directory, or `current_dir`
    /// when no config file was loaded.
    pub fn root_dir(&self, current_dir: &str) -> (r: String)
        ensures
            r@ == (match opt_text(self.root) {
                Some(root) => root,
                None => current_dir@,
            }),
    {
        match &self.root {
            Some(root) => root.clone(),
            None => current_dir.to_owned(),
        }
    }

    /// The local data directory (`.hawk/`) inside the project root.
    pub fn data_dir(&self, current_dir: &str) -> (r: String)
        ensures
            r@ == spec_join(
                match opt_text(self.root) {
                    Some(root) => root,
                    None => current_dir@,
                },
                DATA_DIR_NAME@,
            ),
    {
        let root = self.root_dir(current_dir);
        join_path(root.as_str(), DATA_DIR_NAME)
    }
}

/// `start` and its ancestors, nearest first: each entry is the parent of
/// the one before it, and the last has no parent.
pub fn ancestors(start: &str) -> (r: Vec<String>)
    ensures
        r@.len() >= 1,
        r@[0]@ == start@,
        forall|i: int| 0 <= i < r@.len() - 1 ==> path_parent((#[trigger] r@[i])@) == Some(r@[i + 1]@),
        path_parent(r@.last()@) is None,
{
    let mut out: Vec<String> = Vec::new();
    out.push(start.to_owned());
    loop
        invariant
            out@.len() >= 1,
            out@[0]@ == start@,
            forall|i: int| 0 <= i < out@.len() - 1 ==> path_parent((#[trigger] out@[i])@) == Some(out@[i + 1]@),
        decreases out@.last()@.len(),
    {
        let last = out.len() - 1;
        match parent_path(out[last].as_str()) {
            Some(p) => {
                let ghost prev = out@;
                out.push(p);
                proof {
                    assert forall|i: int| 0 <= i < out@.len() - 1 implies path_parent((#[trigger] out@[i])@)
                        == Some(out@[i + 1]@) by {
                        if i < prev.len() - 1 {
                            assert(out@[i] == prev[i] && out@[i + 1] == prev[i + 1]);
                        }
                    }
                }
            },
            None => {
                return out;
            },
        }
    }
}

impl Config {
    /// The project root: the first of `chain` (a directory and its
    /// ancestors, nearest first) whose entry in `has_config` says it holds a
    /// `hawk.toml`; `None` when none does.
    pub fn find_root(chain: &[String], has_config: &[bool]) -> (r: Option<String>)
        requires
            chain@.len() == has_config@.len(),
        ensures
            match r {
                Some(root) => exists|i: int|
                    0 <= i < chain@.len() && has_config@[i] && root@ == (#[trigger] chain@[i])@ && forall|j: int|
                        0 <= j < i ==> !has_config@[j],
                None => forall|j: int| 0 <= j < chain@.len() ==> !has_config@[j],
            },
    {
        let mut i: usize = 0;
        while i < chain.len()
            invariant
                i <= chain@.len() == has_config@.len(),
                forall|j: int| 0 <= j < i ==> !has_config@[j],
            decreases chain@.len() - i,
        {
            if has_config[i] {
                return Some(chain[i].clone());
            }
            i = i + 1;
        }
        None
    }
}

impl ConfigError {
    /// The error message.
    pub fn to_string(&self) -> (r: String)
        ensures
            r@ == (match self {
                ConfigError::CurrentDir(e) => "unable to determine current directory: "@ + e@,
                ConfigError::NoHome => "unable to locate the home directory"@,
                ConfigError::Read { path, source } => "unable to read config '"@ + path@ + "': "@ + source@,
                ConfigError::Parse { path, source } => "unable to parse config '"@ + path@ + "': "@ + source@,
                ConfigError::Validate { message } => "invalid config: "@ + message@,
            }),
    {
        match self {
            ConfigError::CurrentDir(e) => {
                let mut s = "unable to determine current directory: ".to_owned();
                push_str(&mut s, e.as_str());
                s
            },
            ConfigError::NoHome => "unable to locate the home directory".to_owned(),
            ConfigError::Read { path, source } => {
                let mut s = "unable to read config '".to_owned();
                push_str(&mut s, path.as_str());
                push_str(&mut s, "': ");
                push_str(&mut s, source.as_str());
                s
            },
            ConfigError::Parse { path, source } => {
                let mut s = "unable to parse config '".to_owned();
                push_str(&mut s, path.as_str());
                push_str(&mut s, "': ");
                push_str(&mut s, source.as_str());
                s
            },
            ConfigError::Validate { message } => {
                let mut s = "invalid config: ".to_owned();
                push_str(&mut s, message.as_str());
                s
            },
        }
    }
}

} // verus!
