use hawk_core::finding::{Confidence, Severity};
use hawk_core::language::Language;
use hawk_core::pack::{semver_gt, PackError, PackMeta};
use hawk_core::pack_load::{check_min_hawk, parse_rule, RawPattern, RawRule, RawTaint};

#[test]
fn semver_comparison_handles_numeric_components() {
    assert!(semver_gt("0.10.0", "0.9.0"));
    assert!(!semver_gt("0.9.0", "0.10.0"));
    assert!(!semver_gt("1.0.0", "1.0.0"));
    assert!(semver_gt("2.0.0", "1.99.99"));
    assert!(!semver_gt("0.1.0", "0.1.0-beta"));
}

#[test]
fn semver_components_default_to_zero() {
    assert!(semver_gt("1", "0.9"));
    assert!(!semver_gt("1", "1.0.0"));
    assert!(semver_gt("1.+2", "1.1"));
    assert!(!semver_gt("x.y.z", "0.0.0"));
    assert!(!semver_gt("99999999999999999999", "0"));
}

fn raw_rule() -> RawRule {
    RawRule {
        id: "java.test".into(),
        name: None,
        description: "d".into(),
        recommendation: None,
        category: Some("c".into()),
        severity: "high".into(),
        confidence: None,
        languages: vec!["java".into(), "go".into()],
        cwe: None,
        owasp: None,
        framework: None,
        pattern: Some(RawPattern { regex: "exec\\(".into(), not_regex: None, fix: None }),
        query: None,
        taint: None,
    }
}

#[test]
fn parses_a_pattern_rule() {
    let rule = parse_rule(raw_rule(), "rules/a.rule.toml".into()).unwrap();
    assert_eq!(rule.id, "java.test");
    assert_eq!(rule.name, "rule");
    assert_eq!(rule.severity, Severity::High);
    assert_eq!(rule.confidence, Confidence::Medium);
    assert_eq!(rule.languages, vec![Language::Java, Language::Go]);
    assert_eq!(rule.pattern.as_ref().map(|p| p.regex.as_str()), Some("exec\\("));
    assert!(rule.taint.is_none());
    assert_eq!(rule.source, "rules/a.rule.toml");
}

#[test]
fn unknown_severity_is_an_explicit_error() {
    let raw = RawRule { severity: "extreme".into(), ..raw_rule() };
    let error = parse_rule(raw, "r.toml".into()).unwrap_err();
    assert_eq!(
        error,
        PackError::Validate { message: "rule 'java.test' has unknown severity 'extreme'".into() }
    );
}

#[test]
fn rule_validation_errors_name_the_rule() {
    let raw = RawRule { confidence: Some("sure".into()), ..raw_rule() };
    assert_eq!(
        parse_rule(raw, "r".into()).unwrap_err(),
        PackError::Validate { message: "rule 'java.test' has unknown confidence 'sure'".into() }
    );
    let raw = RawRule { languages: vec!["java".into(), "cobol".into(), "pascal".into()], ..raw_rule() };
    assert_eq!(
        parse_rule(raw, "r".into()).unwrap_err(),
        PackError::Validate { message: "rule 'java.test' has unknown language 'cobol'".into() }
    );
    let raw = RawRule { languages: vec![], ..raw_rule() };
    assert_eq!(
        parse_rule(raw, "r".into()).unwrap_err(),
        PackError::Validate { message: "rule 'java.test' declares no languages".into() }
    );
    let raw = RawRule {
        taint: Some(RawTaint { sources: vec![], sanitizers: vec![], sinks: vec![] }),
        ..raw_rule()
    };
    assert_eq!(
        parse_rule(raw, "r".into()).unwrap_err(),
        PackError::Validate {
            message: "rule 'java.test': a rule must declare exactly one capability (pattern, query, or taint)".into()
        }
    );
}

#[test]
fn packs_needing_a_later_hawk_are_rejected() {
    let meta = PackMeta { name: "p".into(), version: "1".into(), min_hawk: Some("9.0.0".into()), ..PackMeta::default() };
    assert_eq!(
        check_min_hawk(&meta),
        Err(PackError::Validate { message: "pack 'p' requires hawk >= 9.0.0, but this is 0.1.0".into() })
    );
    let meta = PackMeta { min_hawk: Some("0.1.0".into()), ..PackMeta::default() };
    assert_eq!(check_min_hawk(&meta), Ok(()));
}
