use hawk_core::finding::{Finding, Findings, Severity, SourceLocation};
use hawk_core::report::{
    format_rfc3339_utc, html_escape, now_rfc3339, sarif_level, HtmlReporter, JsonReporter, SarifReporter,
    SeveritySummary,
};
use hawk_core::scan::{FileIssue, FileIssueKind, ScanResult};

fn finding(rule_id: &str, severity: Severity) -> Finding {
    Finding::new(
        rule_id,
        severity,
        "message text",
        SourceLocation {
            path: "Example.java".into(),
            start_byte: 0,
            end_byte: 10,
            start_line: 4,
            start_column: 9,
            end_line: 4,
            end_column: 19,
        },
    )
}

fn result() -> ScanResult {
    let mut findings = Findings::new();
    findings.push(finding("rule.a", Severity::High));
    ScanResult {
        discovered_files: 1,
        skipped_files: 0,
        issues: vec![FileIssue {
            kind: FileIssueKind::Parse,
            path: "Broken.java".into(),
            message: "parse failed".into(),
        }],
        findings,
        scanned_files: 1,
        rule_count: 1,
        pack_names: vec!["test".into()],
    }
}

#[test]
fn json_report_contains_findings_and_metadata() {
    let report = JsonReporter.report(&result(), 12);
    assert_eq!(report.findings[0].rule_id, "rule.a");
    assert_eq!(report.severity_summary.high, 1);
    assert_eq!(report.metadata.files_scanned, 1);
    assert_eq!(report.issues.len(), 1);
    assert_eq!(report.issues[0].kind, "parse");
    assert_eq!(report.version, "1.0");
    assert_eq!(report.metadata.duration_ms, 12);
}

#[test]
fn sarif_report_is_shaped_to_2_1_0() {
    let log = SarifReporter.log(&result());
    assert_eq!(log.version, "2.1.0");
    assert_eq!(log.runs.len(), 1);
    assert_eq!(log.runs[0].tool.driver.rules[0].id, "rule.a");
    assert_eq!(log.runs[0].results[0].level, "error");
}

#[test]
fn sarif_rules_are_listed_once_per_rule() {
    let mut findings = Findings::new();
    findings.push(finding("rule.a", Severity::Low));
    findings.push(finding("rule.b", Severity::Medium));
    findings.push(finding("rule.a", Severity::Critical));
    let result = ScanResult { findings, ..ScanResult::new(1) };
    let log = SarifReporter.log(&result);
    let ids: Vec<_> = log.runs[0].tool.driver.rules.iter().map(|r| r.id.as_str()).collect();
    assert_eq!(ids, ["rule.a", "rule.b"]);
    let levels: Vec<_> = log.runs[0].results.iter().map(|r| r.level.as_str()).collect();
    assert_eq!(levels, ["note", "warning", "error"]);
    assert_eq!(sarif_level("INFO"), "note");
}

#[test]
fn html_report_is_self_contained() {
    let html = HtmlReporter.render(&result(), 5);
    assert!(html.contains("<!DOCTYPE html>"));
    assert!(html.contains("Hawk Security Assessment Report"));
    assert!(html.contains("<table>"));
    assert!(html.contains("High: 1"));
}

#[test]
fn timestamp_format_is_rfc3339() {
    assert_eq!(format_rfc3339_utc(0), "1970-01-01T00:00:00Z");
    assert_eq!(format_rfc3339_utc(1_709_164_800), "2024-02-29T00:00:00Z");
    assert_eq!(format_rfc3339_utc(946_684_800), "2000-01-01T00:00:00Z");
    assert_eq!(format_rfc3339_utc(1_672_534_923), "2023-01-01T01:02:03Z");
    let current = now_rfc3339();
    assert_eq!(current.len(), 20);
    assert!(current.ends_with('Z'));
    assert!(current.contains('T'));
}

#[test]
fn timestamps_cover_century_rules_and_far_years() {
    assert_eq!(format_rfc3339_utc(951_782_400), "2000-02-29T00:00:00Z");
    assert_eq!(format_rfc3339_utc(4_107_542_400), "2100-03-01T00:00:00Z");
    assert_eq!(format_rfc3339_utc(86_399), "1970-01-01T23:59:59Z");
    assert_eq!(format_rfc3339_utc(253_402_300_800), "10000-01-01T00:00:00Z");
}

#[test]
fn html_escapes_finding_text() {
    let mut findings = Findings::new();
    findings.push(Finding::new(
        "rule.x",
        Severity::Low,
        "<script>alert(1)</script>",
        SourceLocation {
            path: "x.js".into(),
            start_byte: 0,
            end_byte: 1,
            start_line: 1,
            start_column: 1,
            end_line: 1,
            end_column: 2,
        },
    ));
    let result = ScanResult {
        discovered_files: 1,
        skipped_files: 0,
        issues: vec![],
        findings,
        scanned_files: 1,
        rule_count: 1,
        pack_names: vec!["test".into()],
    };
    let html = HtmlReporter.render(&result, 1);
    assert!(html.contains("&lt;script&gt;"));
    assert!(!html.contains("<script>alert"));
}

#[test]
fn html_escape_replaces_the_four_special_characters() {
    assert_eq!(html_escape("a&b<c>d\"e'"), "a&amp;b&lt;c&gt;d&quot;e'");
}

#[test]
fn severity_summary_counts_known_labels_only() {
    let mut summary = SeveritySummary::default();
    summary.count("HIGH");
    summary.count("HIGH");
    summary.count("LOW");
    summary.count("high");
    assert_eq!(summary.high, 2);
    assert_eq!(summary.low, 1);
    assert_eq!(summary.info + summary.medium + summary.critical, 0);
}

#[test]
fn html_report_at_a_fixed_time_is_exact_in_its_header() {
    let html = HtmlReporter.render_at(&ScanResult::new(3), 7, "2024-01-01T00:00:00Z");
    assert!(html.contains("<p>Hawk 0.1.0 &middot; 3 file(s) scanned, 0 skipped &middot; 7 ms &middot; 2024-01-01T00:00:00Z</p>\n"));
    assert!(html.contains("<h2>Findings (0)</h2>\n"));
    assert!(html.ends_with("</body></html>\n"));
}
