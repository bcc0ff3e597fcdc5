use hawk_core::finding::{Finding, Findings, Severity, SourceLocation};
use hawk_core::reporter::TerminalReporter;
use hawk_core::scan::{FileIssue, FileIssueKind, ScanResult};

fn finding(rule_id: &str, severity: Severity, message: &str) -> Finding {
    Finding::new(
        rule_id,
        severity,
        message,
        SourceLocation {
            path: "Example.java".into(),
            start_byte: 0,
            end_byte: 10,
            start_line: 4,
            start_column: 9,
            end_line: 4,
            end_column: 19,
        },
    )
}

fn result_with(issues: Vec<FileIssue>, findings: Findings) -> ScanResult {
    ScanResult {
        discovered_files: 1,
        skipped_files: 0,
        issues,
        findings,
        scanned_files: 1,
        rule_count: 0,
        pack_names: Vec::new(),
    }
}

#[test]
fn renders_finding_details_and_summary() {
    let mut findings = Findings::new();
    findings.push(finding(
        "java.security.runtime-exec",
        Severity::High,
        "Detects Runtime.exec calls that may execute operating-system commands.",
    ));

    let output = TerminalReporter.render(&result_with(vec![], findings));

    assert!(output.contains("HIGH Example.java:4:9"));
    assert!(output.contains("java.security.runtime-exec"));
    assert!(output.contains("Detects Runtime.exec calls"));
    assert!(output.contains("1 finding in 1 file(s)"));
}

#[test]
fn renders_issues_before_findings_and_marks_degraded_scan() {
    let mut findings = Findings::new();
    findings.push(finding("rule.a", Severity::Low, "first"));
    let issues = vec![FileIssue {
        kind: FileIssueKind::Parse,
        path: "Broken.java".into(),
        message: "syntax tree contains errors; analysis is incomplete".into(),
    }];

    let output = TerminalReporter.render(&result_with(issues, findings));

    assert!(output.starts_with("warning: parse error in Broken.java"));
    assert!(output.contains("degraded: results are incomplete"));
}

#[test]
fn empty_result_render_only_the_summary() {
    let output = TerminalReporter.render(&result_with(vec![], Findings::new()));
    assert_eq!(
        output,
        "0 findings in 1 file(s)\n0 file(s) skipped (0 issue(s) resolved by ignoring them\n"
    );
}

#[test]
fn summary_uses_plural_for_multiple_findings() {
    let mut findings = Findings::new();
    findings.push(finding("rule.a", Severity::Low, "first"));
    findings.push(finding("rule.b", Severity::Medium, "second"));

    let output = TerminalReporter.render(&result_with(vec![], findings));

    assert!(output.contains("2 findings in 1 file(s)\n"));
}
