use hawk_core::finding::{Finding, Severity, SourceLocation};
use hawk_core::fixture::{evaluate, parse_annotations, verdict_line, AnnotationKind, TestVerdict};

fn finding_at(rule_id: &str, line: usize) -> Finding {
    Finding::new(
        rule_id,
        Severity::High,
        "m",
        SourceLocation {
            path: "f.java".into(),
            start_byte: 0,
            end_byte: 1,
            start_line: line,
            start_column: 1,
            end_line: line,
            end_column: 2,
        },
    )
}

#[test]
fn parses_ruleid_and_ok_annotations() {
    let src = "// ruleid: rule.a\nx = 1;\n// ok: rule.b\ny = 2;\n";
    let annotations = parse_annotations(src);
    assert_eq!(annotations.len(), 2);
    assert_eq!(annotations[0].kind, AnnotationKind::RuleId);
    assert_eq!(annotations[0].rule_id, "rule.a");
    assert_eq!(annotations[1].kind, AnnotationKind::Clean);
    assert_eq!(annotations[1].rule_id, "rule.b");
}

#[test]
fn ruleid_expectation_fails_when_missing() {
    let annotations = parse_annotations("// ruleid: rule.a\nbad();\n");
    let verdicts = evaluate(&annotations, &[], |_| true);
    assert!(matches!(verdicts[0], TestVerdict::Expected { line: 1, .. }));
}

#[test]
fn ruleid_satisfied_by_finding_on_next_line() {
    let annotations = parse_annotations("// ruleid: rule.a\nbad();\n");
    let findings = vec![finding_at("rule.a", 2)];
    let verdicts = evaluate(&annotations, &findings, |_| true);
    assert!(verdicts.is_empty());
}

#[test]
fn ok_guards_against_false_positives() {
    let annotations = parse_annotations("// ok: rule.a\ngood();\n");
    let findings = vec![finding_at("rule.a", 2)];
    let verdicts = evaluate(&annotations, &findings, |_| true);
    assert!(matches!(verdicts[0], TestVerdict::Unexpected { .. }));
}

#[test]
fn unknown_rule_annotations_are_surfaced() {
    let annotations = parse_annotations("// ruleid: nope\nx();\n");
    let verdicts = evaluate(&annotations, &[], |id| id != "nope");
    assert!(verdicts
        .iter()
        .any(|v| matches!(v, TestVerdict::UnknownRule { .. })));
}

#[test]
fn annotations_keep_line_numbers_and_crlf_lines() {
    let annotations = parse_annotations("a\r\n  // ruleid:   rule.x  trailing\r\nb\n// ok:\n");
    assert_eq!(annotations.len(), 1);
    assert_eq!(annotations[0].line, 2);
    assert_eq!(annotations[0].rule_id, "rule.x");
}

#[test]
fn one_line_may_carry_both_markers() {
    let annotations = parse_annotations("x // ok: b ruleid: a\n");
    assert_eq!(annotations.len(), 2);
    assert_eq!(annotations[0].kind, AnnotationKind::RuleId);
    assert_eq!(annotations[0].rule_id, "a");
    assert_eq!(annotations[1].kind, AnnotationKind::Clean);
    assert_eq!(annotations[1].rule_id, "b");
}

#[test]
fn findings_two_lines_below_do_not_count() {
    let annotations = parse_annotations("// ruleid: rule.a\n\nbad();\n");
    let findings = vec![finding_at("rule.a", 3)];
    let verdicts = evaluate(&annotations, &findings, |_| true);
    assert_eq!(verdicts, vec![TestVerdict::Expected { rule_id: "rule.a".into(), line: 1 }]);
}

#[test]
fn every_unexpected_finding_is_reported_with_its_line() {
    let annotations = parse_annotations("// ok: rule.a\ngood();\n");
    let findings = vec![finding_at("rule.a", 1), finding_at("rule.b", 2), finding_at("rule.a", 2)];
    let verdicts = evaluate(&annotations, &findings, |_| true);
    assert_eq!(
        verdicts,
        vec![
            TestVerdict::Unexpected { rule_id: "rule.a".into(), line: 1 },
            TestVerdict::Unexpected { rule_id: "rule.a".into(), line: 2 },
        ]
    );
}

#[test]
fn verdict_lines_describe_each_verdict() {
    assert_eq!(verdict_line(&TestVerdict::Pass), "pass");
    assert_eq!(
        verdict_line(&TestVerdict::Expected { rule_id: "r".into(), line: 12 }),
        "- expected finding 'r' at line 12 but none reported"
    );
    assert_eq!(
        verdict_line(&TestVerdict::Unexpected { rule_id: "r".into(), line: 3 }),
        "+ unexpected finding 'r' at line 3 (annotated ok)"
    );
    assert_eq!(
        verdict_line(&TestVerdict::UnknownRule { rule_id: "x.y".into() }),
        "? annotation references unknown rule 'x.y'"
    );
}
