use hawk_core::code_graph::CodeGraph;
use hawk_core::finding::{Confidence, Severity};
use hawk_core::language::Language;
use hawk_core::pack::{PackMeta, PackRegistry, PatternRule, Rule};
use hawk_core::scan::{combine_results, scan_parsed, FileIssueKind, ParsedFile, ScanResult};
use hawk_core::scope::{resolve, PathKind, ScopeError};
use hawk_core::syntax::ParserRegistry;

fn exec_rule() -> Rule {
    Rule {
        id: "java.security.runtime-exec".into(),
        name: "Runtime exec".into(),
        description: "Command execution".into(),
        recommendation: None,
        category: Some("injection".into()),
        severity: Severity::High,
        confidence: Confidence::High,
        languages: vec![Language::Java],
        cwe: Some("CWE-78".into()),
        owasp: None,
        framework: None,
        pattern: Some(PatternRule { regex: "exec\\(".into(), not_regex: None, fix: None }),
        taint: None,
        query: None,
        source: "built-in:java/java.security.runtime-exec.rule.toml".into(),
    }
}

fn packs() -> PackRegistry {
    let meta = PackMeta { name: "java".into(), version: "1.0.0".into(), description: None, authors: None, min_hawk: None };
    let registry = PackRegistry::with_built_in(vec![(meta, vec![exec_rule()])]).unwrap();
    assert!(registry.check_queries());
    registry
}

/// The per-file pipeline of a scan without a cache, on in-memory sources.
fn scan(files: &[(&str, &str)]) -> ScanResult {
    let parsers = ParserRegistry::default();
    let mut prepared = Vec::new();
    for (path, source) in files {
        let mut file = ParsedFile::new(path.to_string());
        if !file.reject_oversized(source.len() as u64) && file.classify() {
            file.load_source(&parsers, Ok(source.to_string()));
        }
        prepared.push(file);
    }
    let graph = CodeGraph::build(prepared.iter().filter_map(|f| f.indexed()).collect());
    let packs = packs();
    let per_file: Vec<ScanResult> = prepared.iter().map(|f| scan_parsed(&packs, &graph, f).0).collect();
    combine_results(files.len(), &packs, &per_file)
}

#[test]
fn scanner_runs_discovery_parse_rule_and_collects_findings() {
    let result = scan(&[(
        "Example.java",
        "class Example { void run(String input) { Runtime.getRuntime().exec(input); } }",
    )]);
    assert_eq!(result.discovered_files, 1);
    assert_eq!(result.skipped_files, 0);
    assert!(result.issues.is_empty());
    assert!(!result.degraded());
    assert_eq!(result.findings.len(), 1);
    assert_eq!(result.scanned_files, 1);
    assert_eq!(result.rule_count, 1);
    assert_eq!(result.pack_names, vec!["java".to_string()]);
}

#[test]
fn unsupported_language_is_skipped_without_error() {
    let result = scan(&[("README.md", "Runtime.getRuntime().exec(input);")]);
    assert_eq!(result.discovered_files, 1);
    assert_eq!(result.skipped_files, 1);
    assert!(result.issues.is_empty());
    assert!(!result.degraded());
    assert!(result.findings.is_empty());
}

#[test]
fn unparseable_file_is_isolated_and_reported_as_degraded() {
    let result = scan(&[("Broken.java", "class Example {")]);
    assert_eq!(result.discovered_files, 1);
    assert_eq!(result.issues.len(), 1);
    assert_eq!(result.issues[0].kind, FileIssueKind::Parse);
    assert_eq!(result.issues[0].path, "Broken.java");
    assert_eq!(result.issues[0].message, "syntax tree contains errors; analysis is incomplete");
    assert!(result.degraded());
}

#[test]
fn scan_pipeline_error_is_fatal_only_for_scope_and_discovery() {
    let err = resolve(&["definitely-missing-path".to_string()], &[PathKind::Missing]).unwrap_err();
    assert!(matches!(err, ScopeError::PathNotFound(_)));
}

#[test]
fn read_errors_nul_bytes_and_oversized_files_are_issues() {
    let parsers = ParserRegistry::default();
    let mut unreadable = ParsedFile::new("A.java".into());
    assert!(unreadable.classify());
    unreadable.load_source(&parsers, Err("permission denied".into()));
    assert_eq!(unreadable.issues, vec![(FileIssueKind::Read, "permission denied".to_string())]);

    let mut binary = ParsedFile::new("B.java".into());
    assert!(binary.classify());
    binary.load_source(&parsers, Ok("class\0B {}".into()));
    assert_eq!(binary.issues, vec![(FileIssueKind::Parse, "invalid source: source contains NUL byte".to_string())]);

    let mut big = ParsedFile::new("Big.java".into());
    assert!(big.reject_oversized(8 * 1024 * 1024 + 1));
    assert_eq!(
        big.issues,
        vec![(FileIssueKind::Read, "file exceeds 8388608 byte(s) limit (8388609 bytes); skipped for safety".to_string())]
    );
    assert!(!ParsedFile::new("x".into()).reject_oversized(8 * 1024 * 1024));

    let graph = CodeGraph::build(Vec::new());
    let packs = packs();
    let (result, to_cache) = scan_parsed(&packs, &graph, &big);
    assert_eq!(result.scanned_files, 0);
    assert_eq!(result.issues.len(), 1);
    assert!(result.issues[0].message.contains("exceeds"));
    assert!(to_cache.is_empty());
}

#[test]
fn cached_files_replay_their_findings() {
    let parsers = ParserRegistry::default();
    let source = "class Example { void run(String input) { Runtime.getRuntime().exec(input); } }";
    let mut first = ParsedFile::new("Example.java".into());
    assert!(first.classify());
    first.load_source(&parsers, Ok(source.into()));
    let graph = CodeGraph::build(first.indexed().into_iter().collect());
    let packs = packs();
    let (result, to_cache) = scan_parsed(&packs, &graph, &first);
    assert_eq!(to_cache.len(), 1);
    assert_eq!(result.findings.len(), 1);

    let mut again = ParsedFile::new("Example.java".into());
    assert!(again.classify());
    again.record_hash("h".into());
    again.use_cached(to_cache.clone());
    let (replayed, nothing) = scan_parsed(&packs, &graph, &again);
    assert_eq!(replayed.scanned_files, 1);
    assert!(nothing.is_empty());
    assert_eq!(replayed.findings.iter().next().unwrap().rule_id, "java.security.runtime-exec");
}
