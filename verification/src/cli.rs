//! Command-line outcomes and the decisions behind them.

use vstd::prelude::*;
use vstd::string::*;
use crate::config::{ascii_lower, lemma_lowered_severity_labels, Config, ReportFormat};
use crate::finding::{severity_label, severity_rank, Finding, Severity};
use crate::scan::ScanResult;
use crate::taint::opt_text;
use crate::text::{chars_of, push_str, str_eq};
use crate::git::GitScope;
use crate::var_set::names_of;
use crate::pack::{parse_u64, parse_u64_chars};

verus! {

/// How a run of the command line ended.
#[derive(Debug, Clone, Copy, PartialEq, Eq, Structural)]
pub enum RunOutcome {
    Help,
    Version,
    Clean,
    Findings,
    Degraded,
    Fatal,
}

pub open spec fn spec_exit_code(o: RunOutcome) -> u8 {
    match o {
        RunOutcome::Help | RunOutcome::Version | RunOutcome::Clean => 0,
        RunOutcome::Fatal => 1,
        RunOutcome::Findings => 2,
        RunOutcome::Degraded => 3,
    }
}

impl RunOutcome {
    /// The process exit code: 0 clean (or help/version), 1 fatal error,
    /// 2 findings, 3 degraded (incomplete) scan.
    pub fn exit_code(self) -> (r: u8)
        ensures
            r == spec_exit_code(self),
    {
        match self {
            RunOutcome::Help | RunOutcome::Version | RunOutcome::Clean => 0,
            RunOutcome::Fatal => 1,
            RunOutcome::Findings => 2,
            RunOutcome::Degraded => 3,
        }
    }
}

/// The report format the config asks for, by name (`None` for `auto`).
pub fn config_format(config: &Config) -> (r: Option<String>)
    ensures
        opt_text(r) == (match config.report.format {
            ReportFormat::Auto => None,
            ReportFormat::Terminal => Some("terminal"@),
            ReportFormat::Json => Some("json"@),
            ReportFormat::Sarif => Some("sarif"@),
            ReportFormat::Html => Some("html"@),
        }),
{
    match config.report.format {
        ReportFormat::Auto => None,
        ReportFormat::Terminal => Some("terminal".to_owned()),
        ReportFormat::Json => Some("json".to_owned()),
        ReportFormat::Sarif => Some("sarif".to_owned()),
        ReportFormat::Html => Some("html".to_owned()),
    }
}

/// The severity a command-line value names exactly (lower case).
pub open spec fn cli_severity(value: Seq<char>) -> Option<Severity> {
    if value == "info"@ {
        Some(Severity::Info)
    } else if value == "low"@ {
        Some(Severity::Low)
    } else if value == "medium"@ {
        Some(Severity::Medium)
    } else if value == "high"@ {
        Some(Severity::High)
    } else if value == "critical"@ {
        Some(Severity::Critical)
    } else {
        None
    }
}

/// A `--fail-on-severity` value is a severity's label in lower case, and each
/// such word names exactly that severity: `high` names high, `critical`
/// names critical, and so on.
pub proof fn lemma_cli_severity_names_its_label(value: Seq<char>, s: Severity)
    ensures
        (cli_severity(value) == Some(s)) <==> (value == ascii_lower(severity_label(s))),
{
    lemma_lowered_severity_labels();
    reveal_strlit("info");
    reveal_strlit("low");
    reveal_strlit("medium");
    reveal_strlit("high");
    reveal_strlit("critical");
    assert("info"@ != "low"@ && "info"@ != "high"@ && "low"@ != "high"@) by {
        assert("info"@[0] != "low"@[0] && "info"@[0] != "high"@[0] && "low"@[0] != "high"@[0]);
    }
    assert("medium"@ != "info"@ && "medium"@ != "low"@ && "medium"@ != "high"@ && "medium"@ != "critical"@) by {
        assert("medium"@[0] != "info"@[0] && "medium"@[0] != "low"@[0] && "medium"@[0] != "high"@[0]);
        assert("medium"@[0] != "critical"@[0]);
    }
    assert("critical"@ != "info"@ && "critical"@ != "low"@ && "critical"@ != "high"@) by {
        assert("critical"@[0] != "info"@[0] && "critical"@[0] != "low"@[0] && "critical"@[0] != "high"@[0]);
    }
}

/// Parses a `--fail-on-severity` value.
pub fn parse_severity(value: &str) -> (r: Option<Severity>)
    ensures
        r == cli_severity(value@),
{
    if str_eq(value, "info") {
        Some(Severity::Info)
    } else if str_eq(value, "low") {
        Some(Severity::Low)
    } else if str_eq(value, "medium") {
        Some(Severity::Medium)
    } else if str_eq(value, "high") {
        Some(Severity::High)
    } else if str_eq(value, "critical") {
        Some(Severity::Critical)
    } else {
        None
    }
}

/// Some finding is at or above `minimum`.
pub open spec fn any_at_least(fs: Seq<Finding>, minimum: Severity) -> bool {
    exists|i: int| 0 <= i < fs.len() && severity_rank(#[trigger] fs[i].severity) >= severity_rank(minimum)
}

/// The outcome of a completed scan: degraded when any file could not be
/// analyzed; otherwise findings when some finding reaches the policy
/// severity (any finding when there is none); otherwise clean.
pub open spec fn spec_scan_outcome(result: ScanResult, fail_on: Option<Severity>) -> RunOutcome {
    let fs = result.findings.view();
    if result.issues@.len() > 0 {
        RunOutcome::Degraded
    } else {
        match fail_on {
            Some(minimum) => if any_at_least(fs, minimum) {
                RunOutcome::Findings
            } else {
                RunOutcome::Clean
            },
            None => if fs.len() > 0 {
                RunOutcome::Findings
            } else {
                RunOutcome::Clean
            },
        }
    }
}

/// Decides how a completed scan ends the run.
pub fn scan_outcome(result: &ScanResult, fail_on: Option<Severity>) -> (r: RunOutcome)
    ensures
        r == spec_scan_outcome(*result, fail_on),
{
    if result.degraded() {
        return RunOutcome::Degraded;
    }
    let fs = result.findings.as_slice();
    match fail_on {
        Some(minimum) => {
            let mut i: usize = 0;
            while i < fs.len()
                invariant
                    i <= fs@.len(),
                    fs@ == result.findings.view(),
                    result.issues@.len() == 0,
                    fail_on == Some(minimum),
                    forall|k: int| 0 <= k < i ==> severity_rank(#[trigger] fs@[k].severity) < severity_rank(minimum),
                decreases fs@.len() - i,
            {
                if fs[i].severity.at_least(minimum) {
                    assert(severity_rank(fs@[i as int].severity) >= severity_rank(minimum));
                    return RunOutcome::Findings;
                }
                i = i + 1;
            }
            RunOutcome::Clean
        },
        None => {
            if fs.len() > 0 {
                RunOutcome::Findings
            } else {
                RunOutcome::Clean
            }
        },
    }
}

/// What a command line asks for: a subcommand family, help, the version,
/// or a scan.
#[derive(Debug, Clone, Copy, PartialEq, Eq, Structural)]
pub enum Command {
    Rule,
    Baseline,
    Config,
    Help,
    Version,
    Scan,
}

pub open spec fn spec_command(args: Seq<Seq<char>>) -> Command {
    if args.len() > 0 && args[0] == "rule"@ {
        Command::Rule
    } else if args.len() > 0 && args[0] == "baseline"@ {
        Command::Baseline
    } else if args.len() > 0 && args[0] == "config"@ {
        Command::Config
    } else if args.contains("--help"@) || args.contains("-h"@) {
        Command::Help
    } else if args.contains("--version"@) || args.contains("-V"@) {
        Command::Version
    } else {
        Command::Scan
    }
}

fn any_arg(args: &[String], a: &str, b: &str) -> (r: bool)
    ensures
        r == (names_of(args@).contains(a@) || names_of(args@).contains(b@)),
{
    let mut k: usize = 0;
    while k < args.len()
        invariant
            k <= args@.len(),
            forall|j: int| 0 <= j < k ==> args@[j]@ != a@ && args@[j]@ != b@,
        decreases args@.len() - k,
    {
        if str_eq(args[k].as_str(), a) || str_eq(args[k].as_str(), b) {
            assert(names_of(args@)[k as int] == args@[k as int]@);
            return true;
        }
        k = k + 1;
    }
    proof {
        if names_of(args@).contains(a@) {
            let j = names_of(args@).index_of(a@);
            assert(names_of(args@)[j] == args@[j]@);
        }
        if names_of(args@).contains(b@) {
            let j = names_of(args@).index_of(b@);
            assert(names_of(args@)[j] == args@[j]@);
        }
    }
    false
}

/// The command a command line asks for (the subcommand word comes first;
/// `--help`/`-h` and `--version`/`-V` anywhere else).
pub fn command_of(args: &[String]) -> (r: Command)
    ensures
        r == spec_command(names_of(args@)),
{
    proof {
        if args@.len() > 0 {
            assert(names_of(args@)[0] == args@[0]@);
        }
    }
    if args.len() > 0 && str_eq(args[0].as_str(), "rule") {
        Command::Rule
    } else if args.len() > 0 && str_eq(args[0].as_str(), "baseline") {
        Command::Baseline
    } else if args.len() > 0 && str_eq(args[0].as_str(), "config") {
        Command::Config
    } else if any_arg(args, "--help", "-h") {
        Command::Help
    } else if any_arg(args, "--version", "-V") {
        Command::Version
    } else {
        Command::Scan
    }
}

/// The options of a scan, after the command line is applied over the
/// project configuration.
#[derive(Debug)]
pub struct ScanOptions {
    pub git_mode: Option<GitScope>,
    pub use_cache: bool,
    pub format: Option<String>,
    pub output: Option<String>,
    pub fail_on_severity: Option<Severity>,
    pub use_baseline: bool,
    pub packs: Vec<String>,
    /// Whether `--pack` replaced the configured pack selection.
    pub cli_packs: bool,
    pub pack_dirs: Vec<String>,
    pub paths: Vec<String>,
}

/// What scan options say, as plain values.
pub struct OptionsView {
    pub git_mode: Option<GitScope>,
    pub use_cache: bool,
    pub format: Option<Seq<char>>,
    pub output: Option<Seq<char>>,
    pub fail_on_severity: Option<Severity>,
    pub use_baseline: bool,
    pub packs: Seq<Seq<char>>,
    pub cli_packs: bool,
    pub pack_dirs: Seq<Seq<char>>,
    pub paths: Seq<Seq<char>>,
}

pub open spec fn options_view(o: ScanOptions) -> OptionsView {
    OptionsView {
        git_mode: o.git_mode,
        use_cache: o.use_cache,
        format: opt_text(o.format),
        output: opt_text(o.output),
        fail_on_severity: o.fail_on_severity,
        use_baseline: o.use_baseline,
        packs: names_of(o.packs@),
        cli_packs: o.cli_packs,
        pack_dirs: names_of(o.pack_dirs@),
        paths: names_of(o.paths@),
    }
}

/// The options before any argument: the project configuration's.
pub open spec fn configured_options(config: Config) -> OptionsView {
    OptionsView {
        git_mode: None,
        use_cache: true,
        format: match config.report.format {
            ReportFormat::Auto => None,
            ReportFormat::Terminal => Some("terminal"@),
            ReportFormat::Json => Some("json"@),
            ReportFormat::Sarif => Some("sarif"@),
            ReportFormat::Html => Some("html"@),
        },
        output: opt_text(config.report.output),
        fail_on_severity: config.policy.exit_on_severity,
        use_baseline: false,
        packs: names_of(config.packs@),
        cli_packs: false,
        pack_dirs: names_of(config.pack_dirs@),
        paths: Seq::empty(),
    }
}

/// The message for an unknown `--fail-on-severity` value.
pub open spec fn unknown_level_message(level: Seq<char>) -> Seq<char> {
    "unknown severity '"@ + level + "' (expected info, low, medium, high, critical)"@
}

/// The options after the arguments from `i` on, or the message of the
/// first argument error.
pub open spec fn parse_args_from(args: Seq<Seq<char>>, i: int, st: OptionsView) -> Result<OptionsView, Seq<char>>
    decreases args.len() - i,
{
    if i < 0 || i >= args.len() {
        Ok(st)
    } else {
        let a = args[i];
        let has_value = i + 1 < args.len();
        let value = if has_value { args[i + 1] } else { Seq::empty() };
        if a == "--changed"@ {
            parse_args_from(args, i + 1, OptionsView { git_mode: Some(GitScope::Changed), ..st })
        } else if a == "--staged"@ {
            parse_args_from(args, i + 1, OptionsView { git_mode: Some(GitScope::Staged), ..st })
        } else if a == "--no-cache"@ {
            parse_args_from(args, i + 1, OptionsView { use_cache: false, ..st })
        } else if a == "--baseline"@ {
            parse_args_from(args, i + 1, OptionsView { use_baseline: true, ..st })
        } else if a == "--pack"@ {
            if !has_value {
                Err("--pack requires a pack name"@)
            } else {
                let base = if st.cli_packs { st.packs } else { Seq::empty() };
                parse_args_from(args, i + 2, OptionsView { packs: base.push(value), cli_packs: true, ..st })
            }
        } else if a == "--pack-dir"@ {
            if !has_value {
                Err("--pack-dir requires a directory"@)
            } else {
                parse_args_from(args, i + 2, OptionsView { pack_dirs: st.pack_dirs.push(value), ..st })
            }
        } else if a == "--fail-on-severity"@ {
            if !has_value {
                Err("--fail-on-severity requires a severity"@)
            } else {
                match cli_severity(value) {
                    Some(level) => parse_args_from(args, i + 2, OptionsView { fail_on_severity: Some(level), ..st }),
                    None => Err(unknown_level_message(value)),
                }
            }
        } else if a == "--format"@ {
            if !has_value {
                Err("--format requires a value"@)
            } else {
                parse_args_from(args, i + 2, OptionsView { format: Some(value), ..st })
            }
        } else if a == "--output"@ || a == "-o"@ {
            if !has_value {
                Err("--output requires a path"@)
            } else {
                parse_args_from(args, i + 2, OptionsView { output: Some(value), ..st })
            }
        } else if a == "--"@ {
            Ok(OptionsView { paths: st.paths + args.subrange(i + 1, args.len() as int), ..st })
        } else if a.len() > 0 && a[0] == '-' {
            Err("unknown option '"@ + a + "'"@)
        } else {
            parse_args_from(args, i + 1, OptionsView { paths: st.paths.push(a), ..st })
        }
    }
}

fn copy_strings(v: &Vec<String>) -> (r: Vec<String>)
    ensures
        names_of(r@) == names_of(v@),
{
    let mut out: Vec<String> = Vec::new();
    let mut k: usize = 0;
    while k < v.len()
        invariant
            k <= v@.len(),
            names_of(out@) == names_of(v@).subrange(0, k as int),
        decreases v@.len() - k,
    {
        let ghost prev = names_of(out@);
        let c = v[k].clone();
        out.push(c);
        assert(names_of(out@) =~= prev.push(v@[k as int]@));
        k = k + 1;
        assert(names_of(out@) =~= names_of(v@).subrange(0, k as int));
    }
    assert(names_of(v@).subrange(0, v@.len() as int) =~= names_of(v@));
    out
}

/// Applies the scan arguments over the project configuration; command-line
/// values override configured ones, and the first `--pack` replaces the
/// configured pack selection.
pub fn parse_scan_options(args: &[String], config: &Config) -> (r: Result<ScanOptions, String>)
    ensures
        match r {
            Ok(o) => parse_args_from(names_of(args@), 0, configured_options(*config)) == Ok::<OptionsView, Seq<char>>(options_view(o)),
            Err(m) => parse_args_from(names_of(args@), 0, configured_options(*config)) == Err::<OptionsView, Seq<char>>(m@),
        },
{
    let ghost av = names_of(args@);
    let mut o = ScanOptions {
        git_mode: None,
        use_cache: true,
        format: config_format(config),
        output: match &config.report.output {
            Some(p) => Some(p.clone()),
            None => None,
        },
        fail_on_severity: config.policy.exit_on_severity,
        use_baseline: false,
        packs: copy_strings(&config.packs),
        cli_packs: false,
        pack_dirs: copy_strings(&config.pack_dirs),
        paths: Vec::new(),
    };
    proof {
        assert(names_of(o.paths@) =~= Seq::<Seq<char>>::empty());
        assert(options_view(o) == configured_options(*config));
    }
    let n = args.len();
    let mut i: usize = 0;
    while i < n
        invariant
            i <= n == args@.len(),
            av == names_of(args@),
            parse_args_from(av, i as int, options_view(o)) == parse_args_from(av, 0, configured_options(*config)),
        decreases n - i,
    {
        let a = args[i].as_str();
        let has_value = i + 1 < n;
        proof {
            assert(av[i as int] == a@);
            if has_value {
                assert(av[i + 1] == args@[i + 1]@);
            }
        }
        let ghost before = options_view(o);
        if str_eq(a, "--changed") {
            o.git_mode = Some(GitScope::Changed);
            i = i + 1;
        } else if str_eq(a, "--staged") {
            o.git_mode = Some(GitScope::Staged);
            i = i + 1;
        } else if str_eq(a, "--no-cache") {
            o.use_cache = false;
            i = i + 1;
        } else if str_eq(a, "--baseline") {
            o.use_baseline = true;
            i = i + 1;
        } else if str_eq(a, "--pack") {
            if !has_value {
                return Err("--pack requires a pack name".to_string());
            }
            if !o.cli_packs {
                o.packs = Vec::new();
                o.cli_packs = true;
                assert(names_of(o.packs@) =~= Seq::<Seq<char>>::empty());
            }
            let ghost base = names_of(o.packs@);
            o.packs.push(args[i + 1].clone());
            proof {
                assert(names_of(o.packs@) =~= base.push(av[i + 1]));
                assert(options_view(o) == OptionsView {
                    packs: (if before.cli_packs { before.packs } else { Seq::empty() }).push(av[i + 1]),
                    cli_packs: true,
                    ..before
                });
            }
            i = i + 2;
        } else if str_eq(a, "--pack-dir") {
            if !has_value {
                return Err("--pack-dir requires a directory".to_string());
            }
            o.pack_dirs.push(args[i + 1].clone());
            proof {
                assert(names_of(o.pack_dirs@) =~= before.pack_dirs.push(av[i + 1]));
                assert(options_view(o) == OptionsView { pack_dirs: before.pack_dirs.push(av[i + 1]), ..before });
            }
            i = i + 2;
        } else if str_eq(a, "--fail-on-severity") {
            if !has_value {
                return Err("--fail-on-severity requires a severity".to_string());
            }
            let level = args[i + 1].as_str();
            match parse_severity(level) {
                Some(s) => {
                    o.fail_on_severity = Some(s);
                },
                None => {
                    let mut message = "unknown severity '".to_string();
                    push_str(&mut message, level);
                    push_str(&mut message, "' (expected info, low, medium, high, critical)");
                    return Err(message);
                },
            }
            i = i + 2;
        } else if str_eq(a, "--format") {
            if !has_value {
                return Err("--format requires a value".to_string());
            }
            o.format = Some(args[i + 1].clone());
            i = i + 2;
        } else if str_eq(a, "--output") || str_eq(a, "-o") {
            if !has_value {
                return Err("--output requires a path".to_string());
            }
            o.output = Some(args[i + 1].clone());
            i = i + 2;
        } else if str_eq(a, "--") {
            let mut k = i + 1;
            let ghost start = names_of(o.paths@);
            while k < n
                invariant
                    i < k <= n == args@.len(),
                    av == names_of(args@),
                    names_of(o.paths@) == start + av.subrange(i + 1, k as int),
                    options_view(o) == (OptionsView { paths: names_of(o.paths@), ..before }),
                decreases n - k,
            {
                let ghost prev = names_of(o.paths@);
                o.paths.push(args[k].clone());
                assert(names_of(o.paths@) =~= prev.push(av[k as int]));
                k = k + 1;
                assert(names_of(o.paths@) =~= start + av.subrange(i + 1, k as int));
            }
            proof {
                assert(options_view(o) == OptionsView { paths: before.paths + av.subrange(i + 1, av.len() as int), ..before });
            }
            return Ok(o);
        } else if chars_of(a).len() > 0 && chars_of(a)[0] == '-' {
            let mut message = "unknown option '".to_string();
            push_str(&mut message, a);
            push_str(&mut message, "'");
            return Err(message);
        } else {
            o.paths.push(args[i].clone());
            proof {
                assert(names_of(o.paths@) =~= before.paths.push(av[i as int]));
                assert(options_view(o) == OptionsView { paths: before.paths.push(av[i as int]), ..before });
            }
            i = i + 1;
        }
    }
    Ok(o)
}

/// The report kinds.
#[derive(Debug, Clone, Copy, PartialEq, Eq, Structural)]
pub enum ReportKind {
    Terminal,
    Json,
    Sarif,
    Html,
}

/// The report a format name selects (none: the terminal report).
pub fn report_kind(format: Option<&str>) -> (r: Result<ReportKind, String>)
    ensures
        match format {
            None => r == Ok::<ReportKind, String>(ReportKind::Terminal),
            Some(f) => if f@ == "terminal"@ || f@ == "text"@ {
                r == Ok::<ReportKind, String>(ReportKind::Terminal)
            } else if f@ == "json"@ {
                r == Ok::<ReportKind, String>(ReportKind::Json)
            } else if f@ == "sarif"@ {
                r == Ok::<ReportKind, String>(ReportKind::Sarif)
            } else if f@ == "html"@ {
                r == Ok::<ReportKind, String>(ReportKind::Html)
            } else {
                r matches Err(m) && m@ == "unknown report format '"@ + f@ + "' (expected terminal, json, sarif, html)"@
            },
        },
{
    match format {
        None => Ok(ReportKind::Terminal),
        Some(f) => {
            if str_eq(f, "terminal") || str_eq(f, "text") {
                Ok(ReportKind::Terminal)
            } else if str_eq(f, "json") {
                Ok(ReportKind::Json)
            } else if str_eq(f, "sarif") {
                Ok(ReportKind::Sarif)
            } else if str_eq(f, "html") {
                Ok(ReportKind::Html)
            } else {
                let mut message = "unknown report format '".to_string();
                push_str(&mut message, f);
                push_str(&mut message, "' (expected terminal, json, sarif, html)");
                Err(message)
            }
        },
    }
}

/// A `--expected` value: a count that fits in `usize`.
pub open spec fn spec_count(v: Seq<char>) -> Option<nat> {
    match parse_u64(v) {
        Some(n) => if n <= usize::MAX { Some(n) } else { None },
        None => None,
    }
}

/// The expected count and the positional arguments of `rule test`, read
/// from argument `i` on, or the message of the first argument error.
pub open spec fn rule_test_from(
    args: Seq<Seq<char>>,
    i: int,
    expected: Option<nat>,
    positional: Seq<Seq<char>>,
) -> Result<(Option<nat>, Seq<Seq<char>>), Seq<char>>
    decreases args.len() - i,
{
    if i < 0 || i >= args.len() {
        Ok((expected, positional))
    } else {
        let a = args[i];
        if a == "--expected"@ {
            if i + 1 < args.len() {
                match spec_count(args[i + 1]) {
                    Some(n) => rule_test_from(args, i + 2, Some(n), positional),
                    None => Err("--expected requires a count"@),
                }
            } else {
                Err("--expected requires a count"@)
            }
        } else if a.len() > 0 && a[0] == '-' {
            Err("unknown option '"@ + a + "'"@)
        } else {
            rule_test_from(args, i + 1, expected, positional.push(a))
        }
    }
}

/// The arguments of `rule test`: the expected count, the rule file and the
/// fixture, or the message of the argument error.
pub open spec fn spec_rule_test_args(args: Seq<Seq<char>>) -> Result<(Option<nat>, Seq<char>, Seq<char>), Seq<char>> {
    match rule_test_from(args, 0, None, Seq::empty()) {
        Err(m) => Err(m),
        Ok((expected, positional)) => if positional.len() == 2 {
            Ok((expected, positional[0], positional[1]))
        } else {
            Err("rule test requires <rule-file> <fixture-file>"@)
        },
    }
}

/// The arguments of `hawk rule test`.
#[derive(Debug)]
pub struct RuleTestArgs {
    pub expected: Option<usize>,
    pub rule_path: String,
    pub fixture: String,
}

fn parse_count(v: &str) -> (r: Option<usize>)
    ensures
        match r {
            Some(n) => spec_count(v@) == Some(n as nat),
            None => spec_count(v@) is None,
        },
{
    let cs = chars_of(v);
    proof {
        assert(cs@.subrange(0, cs@.len() as int) =~= v@);
    }
    match parse_u64_chars(cs.as_slice(), 0, cs.len()) {
        Some(n) => if n <= usize::MAX as u64 {
            Some(n as usize)
        } else {
            None
        },
        None => None,
    }
}

/// Reads the arguments of `hawk rule test`: `--expected <count>` anywhere,
/// no other option, and exactly a rule file and a fixture.
pub fn parse_rule_test_args(args: &[String]) -> (r: Result<RuleTestArgs, String>)
    ensures
        match r {
            Ok(t) => spec_rule_test_args(names_of(args@)) == Ok::<(Option<nat>, Seq<char>, Seq<char>), Seq<char>>((
                match t.expected {
                    Some(n) => Some(n as nat),
                    None => None,
                },
                t.rule_path@,
                t.fixture@,
            )),
            Err(m) => spec_rule_test_args(names_of(args@)) == Err::<(Option<nat>, Seq<char>, Seq<char>), Seq<char>>(m@),
        },
{
    let ghost av = names_of(args@);
    let mut expected: Option<usize> = None;
    let mut positional: Vec<String> = Vec::new();
    let n = args.len();
    let mut i: usize = 0;
    proof {
        assert(names_of(positional@) =~= Seq::<Seq<char>>::empty());
    }
    while i < n
        invariant
            i <= n == args@.len(),
            av == names_of(args@),
            rule_test_from(av, i as int, match expected {
                Some(e) => Some(e as nat),
                None => None,
            }, names_of(positional@)) == rule_test_from(av, 0, None, Seq::empty()),
        decreases n - i,
    {
        let a = args[i].as_str();
        proof {
            assert(av[i as int] == a@);
        }
        if str_eq(a, "--expected") {
            if i + 1 < n {
                proof {
                    assert(av[i + 1] == args@[i + 1]@);
                }
                match parse_count(args[i + 1].as_str()) {
                    Some(c) => {
                        expected = Some(c);
                    },
                    None => {
                        return Err("--expected requires a count".to_string());
                    },
                }
                i = i + 2;
            } else {
                return Err("--expected requires a count".to_string());
            }
        } else if chars_of(a).len() > 0 && chars_of(a)[0] == '-' {
            let mut message = "unknown option '".to_string();
            push_str(&mut message, a);
            push_str(&mut message, "'");
            return Err(message);
        } else {
            let ghost prev = names_of(positional@);
            positional.push(args[i].clone());
            proof {
                assert(names_of(positional@) =~= prev.push(av[i as int]));
            }
            i = i + 1;
        }
    }
    proof {
        assert(names_of(positional@).len() == positional@.len());
    }
    if positional.len() == 2 {
        proof {
            assert(names_of(positional@)[0] == positional@[0]@);
            assert(names_of(positional@)[1] == positional@[1]@);
        }
        let fixture = positional.pop().unwrap();
        let rule_path = positional.pop().unwrap();
        Ok(RuleTestArgs { expected, rule_path, fixture })
    } else {
        Err("rule test requires <rule-file> <fixture-file>".to_string())
    }
}

/// How `rule test` ends when the fixture carries no annotations: fatal when
/// an expected count was given and differs from the number of findings.
pub fn rule_test_outcome(expected: Option<usize>, got: usize) -> (r: RunOutcome)
    ensures
        r == (match expected {
            Some(want) => if want != got { RunOutcome::Fatal } else { RunOutcome::Clean },
            None => RunOutcome::Clean,
        }),
{
    match expected {
        Some(want) => if want != got {
            RunOutcome::Fatal
        } else {
            RunOutcome::Clean
        },
        None => RunOutcome::Clean,
    }
}

/// A rule may run against a fixture when the fixture's language is
/// unknown or is one of the rule's languages.
pub fn rule_applies(fixture_language: crate::language::Language, rule_languages: &[crate::language::Language]) -> (r: bool)
    ensures
        r == (fixture_language == crate::language::Language::Unknown || rule_languages@.contains(fixture_language)),
{
    if fixture_language == crate::language::Language::Unknown {
        return true;
    }
    let mut i: usize = 0;
    while i < rule_languages.len()
        invariant
            i <= rule_languages@.len(),
            forall|k: int| 0 <= k < i ==> rule_languages@[k] != fixture_language,
        decreases rule_languages@.len() - i,
    {
        if rule_languages[i] == fixture_language {
            return true;
        }
        i = i + 1;
    }
    false
}

/// The outcome of `hawk rule test` once the rule ran: with inline
/// annotations, clean exactly when no verdict failed; without, by the
/// expected finding count.
pub fn rule_test_result(annotations: usize, failed_verdicts: usize, expected: Option<usize>, got: usize) -> (r: RunOutcome)
    ensures
        annotations > 0 ==> r == (if failed_verdicts == 0 {
            RunOutcome::Clean
        } else {
            RunOutcome::Fatal
        }),
        annotations == 0 ==> r == (match expected {
            Some(want) => if want != got {
                RunOutcome::Fatal
            } else {
                RunOutcome::Clean
            },
            None => RunOutcome::Clean,
        }),
{
    if annotations > 0 {
        if failed_verdicts == 0 {
            RunOutcome::Clean
        } else {
            RunOutcome::Fatal
        }
    } else {
        rule_test_outcome(expected, got)
    }
}

/// The `hawk rule` subcommands.
#[derive(Debug, Clone, Copy, PartialEq, Eq, Structural)]
pub enum RuleSub {
    List,
    Explain,
    Test,
    Validate,
    Help,
}

pub open spec fn spec_rule_sub(args: Seq<Seq<char>>) -> Result<RuleSub, Seq<char>> {
    if args.len() == 0 {
        Err("missing rule subcommand (list, explain, test)"@)
    } else if args[0] == "list"@ {
        Ok(RuleSub::List)
    } else if args[0] == "explain"@ {
        Ok(RuleSub::Explain)
    } else if args[0] == "test"@ {
        Ok(RuleSub::Test)
    } else if args[0] == "validate"@ {
        Ok(RuleSub::Validate)
    } else if args[0] == "help"@ || args[0] == "--help"@ || args[0] == "-h"@ {
        Ok(RuleSub::Help)
    } else {
        Err("unknown rule subcommand '"@ + args[0] + "'"@)
    }
}

/// The `hawk rule` subcommand the arguments (after `rule`) name.
pub fn rule_subcommand(args: &[String]) -> (r: Result<RuleSub, String>)
    ensures
        match r {
            Ok(sub) => spec_rule_sub(names_of(args@)) == Ok::<RuleSub, Seq<char>>(sub),
            Err(m) => spec_rule_sub(names_of(args@)) == Err::<RuleSub, Seq<char>>(m@),
        },
{
    if args.len() == 0 {
        return Err("missing rule subcommand (list, explain, test)".to_string());
    }
    let sub = args[0].as_str();
    proof {
        assert(names_of(args@)[0] == sub@);
    }
    if str_eq(sub, "list") {
        Ok(RuleSub::List)
    } else if str_eq(sub, "explain") {
        Ok(RuleSub::Explain)
    } else if str_eq(sub, "test") {
        Ok(RuleSub::Test)
    } else if str_eq(sub, "validate") {
        Ok(RuleSub::Validate)
    } else if str_eq(sub, "help") || str_eq(sub, "--help") || str_eq(sub, "-h") {
        Ok(RuleSub::Help)
    } else {
        let mut message = "unknown rule subcommand '".to_string();
        push_str(&mut message, sub);
        push_str(&mut message, "'");
        Err(message)
    }
}

/// The `hawk baseline` subcommands (`update` is `create` again).
#[derive(Debug, Clone, Copy, PartialEq, Eq, Structural)]
pub enum BaselineSub {
    Create,
    Status,
    Help,
}

pub open spec fn spec_baseline_sub(args: Seq<Seq<char>>) -> Result<BaselineSub, Seq<char>> {
    if args.len() == 0 {
        Err("missing baseline subcommand (create, update, status)"@)
    } else if args[0] == "create"@ || args[0] == "update"@ {
        Ok(BaselineSub::Create)
    } else if args[0] == "status"@ {
        Ok(BaselineSub::Status)
    } else if args[0] == "help"@ || args[0] == "--help"@ || args[0] == "-h"@ {
        Ok(BaselineSub::Help)
    } else {
        Err("unknown baseline subcommand '"@ + args[0] + "'"@)
    }
}

/// The `hawk baseline` subcommand the arguments (after `baseline`) name.
pub fn baseline_subcommand(args: &[String]) -> (r: Result<BaselineSub, String>)
    ensures
        match r {
            Ok(sub) => spec_baseline_sub(names_of(args@)) == Ok::<BaselineSub, Seq<char>>(sub),
            Err(m) => spec_baseline_sub(names_of(args@)) == Err::<BaselineSub, Seq<char>>(m@),
        },
{
    if args.len() == 0 {
        return Err("missing baseline subcommand (create, update, status)".to_string());
    }
    let sub = args[0].as_str();
    proof {
        assert(names_of(args@)[0] == sub@);
    }
    if str_eq(sub, "create") || str_eq(sub, "update") {
        Ok(BaselineSub::Create)
    } else if str_eq(sub, "status") {
        Ok(BaselineSub::Status)
    } else if str_eq(sub, "help") || str_eq(sub, "--help") || str_eq(sub, "-h") {
        Ok(BaselineSub::Help)
    } else {
        let mut message = "unknown baseline subcommand '".to_string();
        push_str(&mut message, sub);
        push_str(&mut message, "'");
        Err(message)
    }
}

/// How `baseline status` ends: clean when nothing is new and nothing was
/// fixed since the baseline, otherwise findings.
pub fn baseline_status_outcome(new_count: usize, fixed_count: usize) -> (r: RunOutcome)
    ensures
        r == (if new_count == 0 && fixed_count == 0 { RunOutcome::Clean } else { RunOutcome::Findings }),
{
    if new_count == 0 && fixed_count == 0 {
        RunOutcome::Clean
    } else {
        RunOutcome::Findings
    }
}

/// A degraded scan exits 3 whatever its findings and the severity
/// threshold: incomplete analysis is never reported as clean or as a plain
/// findings result.
pub proof fn lemma_degraded_scan_exits_3(result: ScanResult, fail_on: Option<Severity>)
    requires
        result.issues@.len() > 0,
    ensures
        spec_exit_code(spec_scan_outcome(result, fail_on)) == 3,
{
}

/// With a severity threshold, a complete scan ends with findings exactly when
/// some finding is at or above the threshold, whatever the other findings
/// are, and is clean otherwise.
pub proof fn lemma_threshold_fails_on_any_finding_at_or_above(result: ScanResult, minimum: Severity)
    requires
        result.issues@.len() == 0,
    ensures
        (spec_scan_outcome(result, Some(minimum)) == RunOutcome::Findings) <==> (exists|i: int|
            0 <= i < result.findings.view().len() && severity_rank(#[trigger] result.findings.view()[i].severity)
                >= severity_rank(minimum)),
        spec_scan_outcome(result, Some(minimum)) == RunOutcome::Findings || spec_scan_outcome(
            result,
            Some(minimum),
        ) == RunOutcome::Clean,
{
}

/// A finding added below the threshold never changes the outcome of a
/// complete scan, and one added at or above it always makes the run fail.
pub proof fn lemma_threshold_outcome_after_one_more_finding(
    before: ScanResult,
    after: ScanResult,
    extra: Finding,
    minimum: Severity,
)
    requires
        before.issues@.len() == 0,
        after.issues@.len() == 0,
        after.findings.view() == before.findings.view().push(extra),
    ensures
        severity_rank(extra.severity) < severity_rank(minimum) ==> spec_scan_outcome(after, Some(minimum))
            == spec_scan_outcome(before, Some(minimum)),
        severity_rank(extra.severity) >= severity_rank(minimum) ==> spec_scan_outcome(after, Some(minimum))
            == RunOutcome::Findings,
{
    let fb = before.findings.view();
    let fa = after.findings.view();
    lemma_threshold_fails_on_any_finding_at_or_above(before, minimum);
    lemma_threshold_fails_on_any_finding_at_or_above(after, minimum);
    if severity_rank(extra.severity) >= severity_rank(minimum) {
        assert(fa[fb.len() as int] == extra);
    } else {
        assert forall|i: int| 0 <= i < fb.len() implies #[trigger] fa[i] == fb[i] by {}
        if exists|i: int| 0 <= i < fa.len() && severity_rank(#[trigger] fa[i].severity) >= severity_rank(minimum) {
            let i = choose|i: int| 0 <= i < fa.len() && severity_rank(#[trigger] fa[i].severity) >= severity_rank(minimum);
            assert(i < fb.len());
            assert(severity_rank(fb[i].severity) >= severity_rank(minimum));
        }
        if exists|i: int| 0 <= i < fb.len() && severity_rank(#[trigger] fb[i].severity) >= severity_rank(minimum) {
            let i = choose|i: int| 0 <= i < fb.len() && severity_rank(#[trigger] fb[i].severity) >= severity_rank(minimum);
            assert(fa[i] == fb[i]);
        }
    }
}

/// Without arguments, a scan runs with the project configuration's options.
pub proof fn lemma_no_arguments_keep_the_configuration(config: Config)
    ensures
        parse_args_from(Seq::empty(), 0, configured_options(config)) == Ok::<OptionsView, Seq<char>>(
            configured_options(config),
        ),
{
}

/// A command-line `--format` overrides the configured report format, and
/// leaves every other configured option as it is.
pub proof fn lemma_format_argument_overrides_the_configuration(config: Config, format: Seq<char>)
    ensures
        parse_args_from(seq!["--format"@, format], 0, configured_options(config)) == Ok::<OptionsView, Seq<char>>(
            OptionsView { format: Some(format), ..configured_options(config) },
        ),
{
    reveal_strlit("--format");
    reveal_strlit("--changed");
    reveal_strlit("--staged");
    reveal_strlit("--no-cache");
    reveal_strlit("--baseline");
    reveal_strlit("--pack");
    reveal_strlit("--pack-dir");
    reveal_strlit("--fail-on-severity");
    let args = seq!["--format"@, format];
    assert(args[0] == "--format"@);
    assert("--format"@ != "--changed"@ && "--format"@ != "--staged"@ && "--format"@ != "--no-cache"@) by {
        assert("--format"@[2] != "--changed"@[2]);
        assert("--format"@[2] != "--staged"@[2]);
        assert("--format"@[2] != "--no-cache"@[2]);
    }
    assert("--format"@ != "--baseline"@ && "--format"@ != "--pack"@ && "--format"@ != "--pack-dir"@) by {
        assert("--format"@[2] != "--baseline"@[2]);
        assert("--format"@[2] != "--pack"@[2]);
        assert("--format"@[2] != "--pack-dir"@[2]);
    }
    assert("--format"@ != "--fail-on-severity"@) by {
        assert("--format"@.len() != "--fail-on-severity"@.len());
    }
    let st = configured_options(config);
    assert(parse_args_from(args, 2, OptionsView { format: Some(format), ..st }) == Ok::<OptionsView, Seq<char>>(
        OptionsView { format: Some(format), ..st },
    ));
}

} // verus!
