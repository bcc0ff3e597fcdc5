use hawk_core::language::Language;
use hawk_core::cli::{
    baseline_status_outcome, baseline_subcommand, command_of, config_format, parse_rule_test_args,
    parse_scan_options, parse_severity, report_kind, rule_applies, rule_subcommand, rule_test_outcome, rule_test_result, scan_outcome,
    BaselineSub, Command, ReportKind, RuleSub, RunOutcome,
};
use hawk_core::git::GitScope;
use hawk_core::config::{Config, ReportFormat};
use hawk_core::finding::{Finding, Findings, Severity, SourceLocation};
use hawk_core::scan::{FileIssueKind, ScanResult};

#[test]
fn exit_codes_follow_the_adr_contract() {
    assert_eq!(RunOutcome::Help.exit_code(), 0);
    assert_eq!(RunOutcome::Version.exit_code(), 0);
    assert_eq!(RunOutcome::Clean.exit_code(), 0);
    assert_eq!(RunOutcome::Fatal.exit_code(), 1);
    assert_eq!(RunOutcome::Findings.exit_code(), 2);
    assert_eq!(RunOutcome::Degraded.exit_code(), 3);
}

fn finding(severity: Severity) -> Finding {
    Finding::new(
        "rule.a",
        severity,
        "m",
        SourceLocation {
            path: "A.java".into(),
            start_byte: 0,
            end_byte: 1,
            start_line: 1,
            start_column: 1,
            end_line: 1,
            end_column: 2,
        },
    )
}

#[test]
fn scan_outcome_follows_the_policy() {
    let mut result = ScanResult::new(1);
    assert_eq!(scan_outcome(&result, None), RunOutcome::Clean);
    let mut findings = Findings::new();
    findings.push(finding(Severity::Low));
    result.findings = findings;
    assert_eq!(scan_outcome(&result, None), RunOutcome::Findings);
    assert_eq!(scan_outcome(&result, Some(Severity::High)), RunOutcome::Clean);
    assert_eq!(scan_outcome(&result, Some(Severity::Low)), RunOutcome::Findings);
    result.push_issue(FileIssueKind::Parse, "B.java".into(), "broken".into());
    assert_eq!(scan_outcome(&result, Some(Severity::High)), RunOutcome::Degraded);
}

#[test]
fn severities_and_formats_are_named_exactly() {
    assert_eq!(parse_severity("high"), Some(Severity::High));
    assert_eq!(parse_severity("HIGH"), None);
    let mut config = Config::default();
    assert_eq!(config_format(&config), None);
    config.report.format = ReportFormat::Sarif;
    assert_eq!(config_format(&config).as_deref(), Some("sarif"));
}

fn args(items: &[&str]) -> Vec<String> {
    items.iter().map(|s| s.to_string()).collect()
}

#[test]
fn help_is_available() {
    assert_eq!(command_of(&args(&["--help"])), Command::Help);
    assert_eq!(RunOutcome::Help.exit_code(), 0);
}

#[test]
fn version_is_available() {
    assert_eq!(command_of(&args(&["--version"])), Command::Version);
    assert_eq!(RunOutcome::Version.exit_code(), 0);
}

#[test]
fn unknown_options_are_rejected() {
    let error = parse_scan_options(&args(&["--unknown"]), &Config::default()).unwrap_err();
    assert_eq!(error, "unknown option '--unknown'");
    assert_eq!(RunOutcome::Fatal.exit_code(), 1);
}

#[test]
fn subcommand_words_come_first() {
    assert_eq!(command_of(&args(&["rule", "list"])), Command::Rule);
    assert_eq!(command_of(&args(&["baseline", "status"])), Command::Baseline);
    assert_eq!(command_of(&args(&["config"])), Command::Config);
    assert_eq!(command_of(&args(&["src", "-h"])), Command::Help);
    assert_eq!(command_of(&args(&["-V"])), Command::Version);
    assert_eq!(command_of(&args(&["src", "--help", "rule"])), Command::Help);
    assert_eq!(command_of(&args(&["src"])), Command::Scan);
    assert_eq!(command_of(&args(&[])), Command::Scan);
}

#[test]
fn command_line_overrides_configuration() {
    let mut config = Config::default();
    config.packs = vec!["korea-secure-coding".into(), "java".into()];
    config.pack_dirs = vec!["rules".into()];
    config.report.format = ReportFormat::Json;
    config.policy.exit_on_severity = Some(Severity::Low);
    let options = parse_scan_options(&args(&[]), &config).unwrap();
    assert_eq!(options.packs, vec!["korea-secure-coding", "java"]);
    assert_eq!(options.format.as_deref(), Some("json"));
    assert_eq!(options.fail_on_severity, Some(Severity::Low));
    assert!(options.use_cache);
    assert!(!options.cli_packs);

    let options = parse_scan_options(
        &args(&[
            "--pack", "java", "--pack", "python", "--pack-dir", "more", "--changed", "--no-cache",
            "--baseline", "--fail-on-severity", "high", "--format", "sarif", "-o", "out.sarif",
            "src", "--", "--weird", "x",
        ]),
        &config,
    )
    .unwrap();
    assert_eq!(options.packs, vec!["java", "python"]);
    assert!(options.cli_packs);
    assert_eq!(options.pack_dirs, vec!["rules", "more"]);
    assert_eq!(options.git_mode, Some(GitScope::Changed));
    assert!(!options.use_cache);
    assert!(options.use_baseline);
    assert_eq!(options.fail_on_severity, Some(Severity::High));
    assert_eq!(options.format.as_deref(), Some("sarif"));
    assert_eq!(options.output.as_deref(), Some("out.sarif"));
    assert_eq!(options.paths, vec!["src", "--weird", "x"]);
}

#[test]
fn scan_option_errors_are_named() {
    let config = Config::default();
    let err = |items: &[&str]| parse_scan_options(&args(items), &config).unwrap_err();
    assert_eq!(err(&["--pack"]), "--pack requires a pack name");
    assert_eq!(err(&["--pack-dir"]), "--pack-dir requires a directory");
    assert_eq!(err(&["--fail-on-severity"]), "--fail-on-severity requires a severity");
    assert_eq!(
        err(&["--fail-on-severity", "HIGH"]),
        "unknown severity 'HIGH' (expected info, low, medium, high, critical)"
    );
    assert_eq!(err(&["--format"]), "--format requires a value");
    assert_eq!(err(&["--output"]), "--output requires a path");
    assert_eq!(err(&["-x"]), "unknown option '-x'");
}

#[test]
fn report_kinds_are_selected_by_name() {
    assert_eq!(report_kind(None), Ok(ReportKind::Terminal));
    assert_eq!(report_kind(Some("text")), Ok(ReportKind::Terminal));
    assert_eq!(report_kind(Some("json")), Ok(ReportKind::Json));
    assert_eq!(report_kind(Some("sarif")), Ok(ReportKind::Sarif));
    assert_eq!(report_kind(Some("html")), Ok(ReportKind::Html));
    assert_eq!(
        report_kind(Some("xml")),
        Err("unknown report format 'xml' (expected terminal, json, sarif, html)".to_string())
    );
}

#[test]
fn rule_test_arguments_are_read() {
    let t = parse_rule_test_args(&args(&["r.toml", "--expected", "+3", "f.java"])).unwrap();
    assert_eq!(t.expected, Some(3));
    assert_eq!(t.rule_path, "r.toml");
    assert_eq!(t.fixture, "f.java");
    let t = parse_rule_test_args(&args(&["r.toml", "f.java"])).unwrap();
    assert_eq!(t.expected, None);
    let err = |items: &[&str]| parse_rule_test_args(&args(items)).err().unwrap();
    assert_eq!(err(&["r.toml", "f.java", "--expected"]), "--expected requires a count");
    assert_eq!(err(&["--expected", "many", "r", "f"]), "--expected requires a count");
    assert_eq!(err(&["--verbose", "r", "f"]), "unknown option '--verbose'");
    assert_eq!(err(&["r.toml"]), "rule test requires <rule-file> <fixture-file>");
    assert_eq!(err(&["a", "b", "c"]), "rule test requires <rule-file> <fixture-file>");
    assert_eq!(rule_test_outcome(Some(2), 2), RunOutcome::Clean);
    assert_eq!(rule_test_outcome(Some(2), 1), RunOutcome::Fatal);
    assert_eq!(rule_test_outcome(None, 7), RunOutcome::Clean);
}

#[test]
fn subcommand_families_are_dispatched() {
    assert_eq!(rule_subcommand(&args(&["list"])), Ok(RuleSub::List));
    assert_eq!(rule_subcommand(&args(&["explain", "id"])), Ok(RuleSub::Explain));
    assert_eq!(rule_subcommand(&args(&["test"])), Ok(RuleSub::Test));
    assert_eq!(rule_subcommand(&args(&["validate"])), Ok(RuleSub::Validate));
    assert_eq!(rule_subcommand(&args(&["-h"])), Ok(RuleSub::Help));
    assert_eq!(rule_subcommand(&args(&[])), Err("missing rule subcommand (list, explain, test)".to_string()));
    assert_eq!(rule_subcommand(&args(&["run"])), Err("unknown rule subcommand 'run'".to_string()));
    assert_eq!(baseline_subcommand(&args(&["update"])), Ok(BaselineSub::Create));
    assert_eq!(baseline_subcommand(&args(&["status"])), Ok(BaselineSub::Status));
    assert_eq!(
        baseline_subcommand(&args(&[])),
        Err("missing baseline subcommand (create, update, status)".to_string())
    );
    assert_eq!(baseline_subcommand(&args(&["drop"])), Err("unknown baseline subcommand 'drop'".to_string()));
    assert_eq!(baseline_status_outcome(0, 0), RunOutcome::Clean);
    assert_eq!(baseline_status_outcome(1, 0), RunOutcome::Findings);
    assert_eq!(baseline_status_outcome(0, 2), RunOutcome::Findings);
}

#[test]
fn rule_test_applies_only_to_declared_languages() {
    assert!(rule_applies(Language::Unknown, &[Language::Java]));
    assert!(rule_applies(Language::Java, &[Language::Python, Language::Java]));
    assert!(!rule_applies(Language::Go, &[Language::Java]));
}

#[test]
fn annotations_decide_a_rule_test_before_the_expected_count() {
    assert_eq!(rule_test_result(2, 0, Some(5), 1), RunOutcome::Clean);
    assert_eq!(rule_test_result(2, 1, None, 0), RunOutcome::Fatal);
    assert_eq!(rule_test_result(0, 0, Some(1), 2), RunOutcome::Fatal);
    assert_eq!(rule_test_result(0, 0, None, 2), RunOutcome::Clean);
}
