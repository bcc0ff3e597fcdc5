use hawk_core::finding::{Confidence, Severity};
use hawk_core::language::Language;
use hawk_core::rule::{JavaRuntimeExecRule, RuleRegistry};
use hawk_core::syntax::TreeSitterParser;

#[test]
fn runtime_exec_rule_detects_runtime_exec() {
    let source = "class Example { void run(String input) { Runtime.getRuntime().exec(input); } }";
    let tree = TreeSitterParser { language: Language::Java }.parse(source).unwrap();
    let findings = JavaRuntimeExecRule.check(&tree.root, source, "Example.java");

    assert_eq!(findings.len(), 1);
    let finding = findings.iter().next().unwrap();
    assert_eq!(finding.rule_id, "java.security.runtime-exec");
    assert_eq!(finding.severity, Severity::High);
    assert_eq!(finding.confidence, Confidence::High);
    assert_eq!(finding.category.as_deref(), Some("command-injection"));
    assert_eq!(finding.cwe.as_deref(), Some("CWE-78"));
    assert_eq!(finding.owasp.as_deref(), Some("A03:2021"));
    assert_eq!(finding.language, Some(Language::Java));
    assert_eq!(finding.location.start_line, 1);
    assert!(!finding.fingerprint.is_empty());
    let again = JavaRuntimeExecRule.check(&tree.root, source, "Example.java");
    assert_eq!(again.iter().next().unwrap().fingerprint, finding.fingerprint);
}

#[test]
fn runtime_exec_rule_ignores_unrelated_method_calls() {
    let source = "class Example { void run() { process.exec(); } }";
    let tree = TreeSitterParser { language: Language::Java }.parse(source).unwrap();
    let findings = JavaRuntimeExecRule.check(&tree.root, source, "Example.java");
    assert!(findings.is_empty());
}

#[test]
fn built_in_registry_contains_only_built_in_rules() {
    let registry = RuleRegistry::built_in();
    let ids: Vec<_> = registry.iter().map(|rule| rule.id()).collect();
    assert_eq!(ids, ["java.security.runtime-exec"]);
}
