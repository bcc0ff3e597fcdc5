use hawk_core::finding::{Confidence, Finding, Findings, Severity, SourceLocation};

fn location() -> SourceLocation {
    SourceLocation {
        path: "src/Main.java".into(),
        start_byte: 10,
        end_byte: 20,
        start_line: 2,
        start_column: 4,
        end_line: 2,
        end_column: 14,
    }
}

#[test]
fn finding_preserves_rule_metadata_and_location() {
    let finding = Finding::new(
        "java.security.command-execution",
        Severity::High,
        "Command execution uses untrusted input.",
        location(),
    );

    assert_eq!(finding.rule_id, "java.security.command-execution");
    assert_eq!(finding.severity, Severity::High);
    assert_eq!(finding.location.start_line, 2);
}

#[test]
fn findings_preserve_insertion_order() {
    let mut findings = Findings::new();
    findings.push(Finding::new("rule.b", Severity::Low, "second", location()));
    findings.push(Finding::new("rule.a", Severity::High, "first", location()));

    let ids: Vec<_> = findings.iter().map(|finding| finding.rule_id.as_str()).collect();
    assert_eq!(ids, ["rule.b", "rule.a"]);
}

#[test]
fn empty_findings_are_reported_as_empty() {
    let findings = Findings::new();
    assert!(findings.is_empty());
    assert_eq!(findings.len(), 0);
}

#[test]
fn severity_has_stable_display_values() {
    assert_eq!(Severity::Info.to_string(), "INFO");
    assert_eq!(Severity::Low.to_string(), "LOW");
    assert_eq!(Severity::Medium.to_string(), "MEDIUM");
    assert_eq!(Severity::High.to_string(), "HIGH");
    assert_eq!(Severity::Critical.to_string(), "CRITICAL");
}

#[test]
fn new_findings_default_their_metadata() {
    let finding = Finding::new("rule.x", Severity::Low, "m", location());
    assert_eq!(finding.rule_name, "rule.x");
    assert_eq!(finding.confidence, Confidence::Medium);
    assert_eq!(finding.description, None);
    assert_eq!(finding.fingerprint.len(), 16);
    let same = Finding::new("rule.x", Severity::High, "other", location());
    assert_eq!(same.fingerprint, finding.fingerprint);
    let moved = Finding::new("rule.x", Severity::Low, "m", SourceLocation { start_line: 3, ..location() });
    assert_ne!(moved.fingerprint, finding.fingerprint);
}

#[test]
fn builders_set_exactly_their_field() {
    let finding = Finding::new("rule.x", Severity::Low, "m", location())
        .with_confidence(Confidence::High)
        .with_rule_name("Name")
        .with_cwe("CWE-1");
    assert_eq!(finding.confidence, Confidence::High);
    assert_eq!(finding.rule_name, "Name");
    assert_eq!(finding.cwe.as_deref(), Some("CWE-1"));
    assert_eq!(finding.owasp, None);
    assert!(Severity::High.at_least(Severity::Medium));
    assert!(!Severity::Low.at_least(Severity::Medium));
    assert_eq!(Confidence::Low.to_string(), "LOW");
}
