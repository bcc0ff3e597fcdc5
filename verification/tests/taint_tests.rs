use hawk_core::finding::{Confidence, Severity};
use hawk_core::language::Language;
use hawk_core::taint::{to_finding, TaintFinding, TaintMetadata};
use hawk_core::taint_engine::{
    contains_identifier, is_identifier_character, is_tainted_text, line_text, parse_call, strip_string_literals,
};

#[test]
fn identifier_matching_does_not_confuse_prefixes() {
    let tainted = vec!["id".to_string()];
    assert!(is_tainted_text("execute(id)", &tainted));
    assert!(!is_tainted_text("execute(identity)", &tainted));
}

#[test]
fn words_inside_string_data_are_not_identifiers() {
    let tainted = vec!["id".to_string()];
    assert!(!is_tainted_text("run(\"select id from t\")", &tainted));
    assert!(is_tainted_text("run(`select ${id}`)", &tainted));
    assert!(!is_tainted_text("run(`select id`)", &tainted));
    assert!(!is_tainted_text("anything", &[]));
}

#[test]
fn string_literals_are_blanked() {
    assert_eq!(strip_string_literals("a \"b\\\"c\" d"), "a    d");
    assert_eq!(strip_string_literals("x 'y' z"), "x    z");
    assert_eq!(strip_string_literals("`a ${b + {c}} d`"), " b + {c}} ");
    assert_eq!(strip_string_literals("\"open"), "  ");
}

#[test]
fn identifiers_need_word_boundaries() {
    assert!(contains_identifier("a.b(id)", "id"));
    assert!(!contains_identifier("a.b(_id)", "id"));
    assert!(!contains_identifier("ids", "id"));
    assert!(!contains_identifier("anything", ""));
    assert!(is_identifier_character('_'));
    assert!(!is_identifier_character('.'));
}

#[test]
fn calls_are_split_into_name_and_top_level_arguments() {
    assert_eq!(
        parse_call("st.executeQuery(build(a, b), c )"),
        Some(("executeQuery".to_string(), vec!["build(a, b)".to_string(), "c".to_string()]))
    );
    assert_eq!(parse_call("f()"), Some(("f".to_string(), vec![])));
    assert_eq!(parse_call("(x)"), None);
    assert_eq!(parse_call("f(a"), None);
    assert_eq!(parse_call("no call"), None);
}

#[test]
fn line_text_returns_the_trimmed_line() {
    let source = "first\n   second line  \nthird";
    assert_eq!(line_text(source, 8), "second line");
    assert_eq!(line_text(source, 0), "first");
    assert_eq!(line_text(source, 1000), "third");
}

#[test]
fn taint_findings_become_findings_at_the_sink() {
    let source = "a\n  st.executeQuery(sql);\n";
    let taint = TaintFinding {
        start_byte: 4,
        end_byte: 23,
        start_line: 2,
        start_column: 3,
        tainted: "sql".into(),
        sink: "st.executeQuery(sql)".into(),
    };
    let metadata = TaintMetadata {
        rule_id: "java.sqli",
        rule_name: "SQL injection",
        description: "desc",
        recommendation: Some("fix it"),
        category: None,
        framework: None,
        cwe: Some("CWE-89"),
        owasp: None,
        language: Some(Language::Java),
        severity: Severity::Critical,
        confidence: Confidence::High,
    };
    let finding = to_finding(&taint, source, metadata, "A.java");
    assert_eq!(finding.message, "Tainted data from sql reached sink st.executeQuery(sql).");
    assert_eq!(finding.location.end_column, 22);
    assert_eq!(finding.code_snippet.as_deref(), Some("st.executeQuery(sql);"));
    assert_eq!(finding.recommendation.as_deref(), Some("fix it"));
    assert_eq!(finding.category, None);
    assert_eq!(finding.cwe.as_deref(), Some("CWE-89"));
    assert_eq!(finding.rule_name, "SQL injection");
}
