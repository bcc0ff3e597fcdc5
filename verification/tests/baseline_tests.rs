use hawk_core::baseline::{baseline_path, classify, Baseline};
use hawk_core::cache::hash_bytes;
use hawk_core::finding::{Finding, Severity, SourceLocation};

fn finding(rule_id: &str, line: usize) -> Finding {
    Finding::new(
        rule_id,
        Severity::High,
        "msg",
        SourceLocation {
            path: "A.java".into(),
            start_byte: 0,
            end_byte: 1,
            start_line: line,
            start_column: 1,
            end_line: line,
            end_column: 2,
        },
    )
}

#[test]
fn classify_marks_new_existing_and_fixed() {
    let baseline = Baseline {
        fingerprints: vec![finding("rule.a", 1).fingerprint.clone(), "ghost".to_string()],
    };
    let findings = vec![finding("rule.a", 1), finding("rule.b", 2)];

    let status = classify(&baseline, &findings);

    assert_eq!(status.existing.len(), 1);
    assert_eq!(status.existing[0].rule_id, "rule.a");
    assert_eq!(status.new.len(), 1);
    assert_eq!(status.new[0].rule_id, "rule.b");
    assert_eq!(status.fixed, vec!["ghost".to_string()]);
}

#[test]
fn baseline_of_a_scan_classifies_that_scan_as_all_existing() {
    let findings = vec![finding("rule.a", 1), finding("rule.b", 2), finding("rule.a", 1)];
    let baseline = Baseline::from_findings(&findings);
    let status = classify(&baseline, &findings);
    assert_eq!(status.existing.len(), 3);
    assert!(status.new.is_empty());
    assert!(status.fixed.is_empty());
}

#[test]
fn fixed_fingerprints_are_listed_once_in_baseline_order() {
    let baseline = Baseline {
        fingerprints: vec!["b".into(), "a".into(), "b".into(), "c".into()],
    };
    let present = finding("rule.a", 1);
    let status = classify(&baseline, &[present]);
    assert_eq!(status.fixed, vec!["b".to_string(), "a".to_string(), "c".to_string()]);
    assert_eq!(baseline.set_of(), vec!["b".to_string(), "a".to_string(), "c".to_string()]);
    assert!(baseline.contains("c"));
    assert!(!baseline.contains("d"));
}

#[test]
fn baseline_lives_in_the_data_directory() {
    assert_eq!(baseline_path("/work/project"), "/work/project/.hawk/baseline.json");
    assert_eq!(baseline_path("root/"), "root/.hawk/baseline.json");
    assert_eq!(baseline_path(""), ".hawk/baseline.json");
}

#[test]
fn hash_is_stable_and_content_sensitive() {
    assert_eq!(hash_bytes(b"abc"), hash_bytes(b"abc"));
    assert_ne!(hash_bytes(b"abc"), hash_bytes(b"abd"));
}

#[test]
fn hash_is_fnv1a_in_sixteen_hex_digits() {
    assert_eq!(hash_bytes(b""), "cbf29ce484222325");
    assert_eq!(hash_bytes(b"a"), "af63dc4c8601ec8c");
}
