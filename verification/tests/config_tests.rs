use hawk_core::config::{ancestors, parse_severity, Config, ConfigError, RawConfig, RawPolicy, RawReport, ReportFormat};
use hawk_core::finding::Severity;

#[test]
fn default_config_works_without_a_file() {
    let config = Config::default();
    assert!(config.include_paths.is_empty());
    assert!(config.exclude.is_empty());
    assert_eq!(config.report.format, ReportFormat::Auto);
    assert_eq!(config.policy.exit_on_severity, None);
    assert!(config.source.is_none());
}

#[test]
fn full_raw_config_is_anchored_at_its_directory() {
    let raw = RawConfig {
        include_paths: Some(vec!["src".into(), "lib".into()]),
        exclude: Some(vec!["vendor".into()]),
        packs: Some(vec!["java".into()]),
        pack_dirs: Some(vec!["./rules".into(), "/abs/rules".into()]),
        report: Some(RawReport { format: Some("json".into()), output: Some("report.json".into()) }),
        policy: Some(RawPolicy { exit_on_severity: Some("high".into()) }),
    };
    let config = Config::from_raw(raw, "x/hawk.toml").unwrap();
    assert_eq!(config.include_paths, vec!["src", "lib"]);
    assert_eq!(config.exclude, vec!["vendor"]);
    assert_eq!(config.packs, vec!["java"]);
    assert_eq!(config.pack_dirs, vec!["x/./rules", "/abs/rules"]);
    assert_eq!(config.report.format, ReportFormat::Json);
    assert_eq!(config.report.output.as_deref(), Some("x/report.json"));
    assert_eq!(config.policy.exit_on_severity, Some(Severity::High));
    assert_eq!(config.root.as_deref(), Some("x"));
    assert_eq!(config.source.as_deref(), Some("x/hawk.toml"));
}

#[test]
fn parses_a_full_config_file() {
    // include = ["src", "lib"], exclude = ["vendor"], packs = ["java"],
    // pack-dirs = ["./rules"], [report] format = "json", output = "report.json",
    // [policy] exit-on-severity = "high"
    let raw = RawConfig {
        include_paths: Some(vec!["src".into(), "lib".into()]),
        exclude: Some(vec!["vendor".into()]),
        packs: Some(vec!["java".into()]),
        pack_dirs: Some(vec!["./rules".into()]),
        report: Some(RawReport { format: Some("json".into()), output: Some("report.json".into()) }),
        policy: Some(RawPolicy { exit_on_severity: Some("high".into()) }),
    };
    let config = Config::from_raw(raw, "x/hawk.toml").unwrap();
    assert_eq!(config.include_paths, vec!["src", "lib"]);
    assert_eq!(config.exclude, vec!["vendor"]);
    assert_eq!(config.packs, vec!["java"]);
    assert_eq!(config.report.format, ReportFormat::Json);
    assert_eq!(config.report.output.as_deref(), Some("x/report.json"));
    assert_eq!(config.policy.exit_on_severity, Some(Severity::High));
    assert_eq!(config.root.as_deref(), Some("x"));
}

#[test]
fn empty_toml_parses_to_defaults() {
    let config = Config::from_raw(RawConfig::default(), "x/hawk.toml").unwrap();
    assert!(config.include_paths.is_empty());
    assert_eq!(config.report.format, ReportFormat::Auto);
    assert!(config.source.is_some());
}

#[test]
fn unknown_report_format_is_an_explicit_error() {
    let raw = RawConfig {
        report: Some(RawReport { format: Some("xml".into()), output: None }),
        ..RawConfig::default()
    };
    let error = Config::from_raw(raw, "hawk.toml").unwrap_err();
    assert!(matches!(error, ConfigError::Validate { .. }));
    assert_eq!(
        error,
        ConfigError::Validate {
            message: "unknown report format 'xml' (expected auto, terminal, json, sarif, html)".into()
        }
    );
}

#[test]
fn unknown_exit_severity_is_an_explicit_error() {
    let raw = RawConfig {
        policy: Some(RawPolicy { exit_on_severity: Some("extreme".into()) }),
        ..RawConfig::default()
    };
    let error = Config::from_raw(raw, "hawk.toml").unwrap_err();
    assert!(matches!(error, ConfigError::Validate { .. }));
}

#[test]
fn policy_severity_ignores_ascii_case() {
    assert_eq!(parse_severity("CrItIcal"), Ok(Severity::Critical));
    assert_eq!(parse_severity("nope"), Err("nope".to_string()));
}

#[test]
fn data_directory_is_inside_the_root() {
    let mut config = Config::default();
    assert_eq!(config.data_dir("/cwd"), "/cwd/.hawk");
    config.root = Some("proj".into());
    assert_eq!(config.data_dir("/cwd"), "proj/.hawk");
    assert_eq!(config.root_dir("/cwd"), "proj");
}

#[test]
fn find_root_walks_up_to_the_nearest_config() {
    let chain = ancestors("/tmp/proj/a/b");
    assert_eq!(chain, vec!["/tmp/proj/a/b", "/tmp/proj/a", "/tmp/proj", "/tmp", "/"]);
    // Only /tmp/proj holds a hawk.toml.
    let marks: Vec<bool> = chain.iter().map(|d| d == "/tmp/proj").collect();
    assert_eq!(Config::find_root(&chain, &marks), Some("/tmp/proj".to_string()));
    let none = vec![false; chain.len()];
    assert_eq!(Config::find_root(&chain, &none), None);
    assert_eq!(ancestors("a/b"), vec!["a/b", "a", ""]);
}
