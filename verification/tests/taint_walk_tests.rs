use hawk_core::language::Language;
use hawk_core::semantic::positions_fit_exec;
use hawk_core::syntax::{SyntaxTree, TreeSitterParser};
use hawk_core::taint::{TaintConfig, TaintFinding};
use hawk_core::taint_engine::{analyze, analyze_java};
use hawk_core::taint_walk::join_branches;
use hawk_core::var_set::VarSet;

fn parse_in(language: Language, source: &str) -> SyntaxTree {
    let parser = TreeSitterParser { language };
    let tree = parser.parse(source).unwrap();
    assert!(positions_fit_exec(&tree.root));
    tree
}

fn parse(source: &str) -> SyntaxTree {
    parse_in(Language::Java, source)
}

fn sqli_config() -> TaintConfig {
    TaintConfig {
        sources: vec!["getParameter".into()],
        sanitizers: vec!["escapeSql".into()],
        sinks: vec![".executeQuery(".into(), ".execute(".into()],
    }
}

#[test]
fn detects_sql_injection_source_to_sink_flow() {
    let source = r#"
class X {
    void m(javax.servlet.http.HttpServletRequest req, java.sql.Statement st) {
        String id = req.getParameter("id");
        String sql = "SELECT * FROM users WHERE id = " + id;
        st.executeQuery(sql);
    }
}
"#;
    let tree = parse(source);
    let findings = analyze_java(&tree, source, &sqli_config());

    assert_eq!(findings.len(), 1);
    assert_eq!(findings[0].sink, "st.executeQuery(sql)");
    assert!(findings[0].tainted.contains("sql"));
    assert_eq!(findings[0].start_line, 6);
}

#[test]
fn no_finding_when_sink_input_is_clean() {
    let source = r#"
class X {
    void m(java.sql.Statement st) {
        st.executeQuery("SELECT 1");
    }
}
"#;
    let tree = parse(source);
    let findings = analyze_java(&tree, source, &sqli_config());

    assert!(findings.is_empty());
}

#[test]
fn direct_source_in_sink_argument_is_detected() {
    let source = r#"
class X {
    void m(javax.servlet.http.HttpServletRequest req, java.sql.Statement st) {
        st.executeQuery(req.getParameter("q"));
    }
}
"#;
    let tree = parse(source);
    let findings = analyze_java(&tree, source, &sqli_config());

    assert_eq!(findings.len(), 1);
}

#[test]
fn sanitized_flow_is_not_detected() {
    let source = r#"
class X {
    void m(javax.servlet.http.HttpServletRequest req) {
        String id = req.getParameter("id");
        String safe = escapeSql(id);
        String sql = "SELECT * FROM u WHERE id = " + safe;
        // The sink here matches executeQuery; safe was sanitized so no taint.
    }
}
"#;
    let config = TaintConfig {
        sinks: vec!["executeQuery".into()],
        sanitizers: vec!["escapeSql".into()],
        sources: vec!["getParameter".into()],
    };
    let tree = parse(source);

    let findings = analyze_java(&tree, source, &config);
    assert!(findings.is_empty());
}

#[test]
fn interprocedural_return_value_taint_is_tracked() {
    let source = r#"
class X {
    String buildQuery(javax.servlet.http.HttpServletRequest req) {
        return "SELECT * FROM u WHERE id=" + req.getParameter("id");
    }
    void m(javax.servlet.http.HttpServletRequest req, java.sql.Statement st) {
        st.executeQuery(buildQuery(req));
    }
}
"#;
    let tree = parse(source);
    let findings = analyze_java(&tree, source, &sqli_config());

    assert_eq!(findings.len(), 1, "method return value must carry taint");
    assert_eq!(findings[0].sink, "st.executeQuery(buildQuery(req))");
}

#[test]
fn interprocedural_taint_flows_through_assignment() {
    let source = r#"
class X {
    String wrap(String input) {
        return "prefix " + input;
    }
    void m(javax.servlet.http.HttpServletRequest req, java.sql.Statement st) {
        String id = req.getParameter("id");
        String sql = wrap(id);
        st.executeQuery(sql);
    }
}
"#;
    let tree = parse(source);
    let findings = analyze_java(&tree, source, &sqli_config());

    assert_eq!(findings.len(), 1, "assigned method result must carry taint");
    assert!(findings[0].tainted.contains("sql"));
}

#[test]
fn tainted_arguments_are_bound_to_callee_parameters() {
    let source = r#"
class X {
    String concat(String a, String b) {
        return a + b;
    }
    void m(javax.servlet.http.HttpServletRequest req, java.sql.Statement st) {
        String id = req.getParameter("id");
        String sql = concat("SELECT * FROM u WHERE id=", id);
        st.executeQuery(sql);
    }
}
"#;
    let tree = parse(source);
    let findings = analyze_java(&tree, source, &sqli_config());

    assert_eq!(findings.len(), 1, "parameter binding must propagate taint");
}

#[test]
fn interprocedural_taint_does_not_leak_across_siblings() {
    let source = r#"
class X {
    String buildQuery(javax.servlet.http.HttpServletRequest req) {
        return req.getParameter("id");
    }
    void clean() {
        String sql = "SELECT 1";
    }
    void m(javax.servlet.http.HttpServletRequest req, java.sql.Statement st) {
        String sql = "SELECT 1";
        st.executeQuery(sql);
    }
}
"#;
    let tree = parse(source);
    let findings = analyze_java(&tree, source, &sqli_config());

    assert!(findings.is_empty(), "unrelated method must not be tainted");
}

#[test]
fn recursive_calls_do_not_loop_forever() {
    let source = r#"
class X {
    String identity(String x) {
        return identity(x);
    }
    void m(javax.servlet.http.HttpServletRequest req, java.sql.Statement st) {
        String id = req.getParameter("id");
        String sql = identity(id);
        st.executeQuery(sql);
    }
}
"#;
    let tree = parse(source);
    let findings = analyze_java(&tree, source, &sqli_config());

    assert!(findings.len() <= 1);
}

#[test]
fn javascript_taint_flows_through_variables_and_function_returns() {
    let source = r#"
function build(prefix, user) {
    return prefix + user.q;
}
const q = req.query.q;
el.outerHTML = build("x", { q });
"#;
    let tree = parse_in(Language::JavaScript, source);
    let config = TaintConfig {
        sources: vec!["req.query".into()],
        sanitizers: vec![],
        sinks: vec![".outerHTML".into()],
    };

    let findings = analyze(&tree, source, &config, Language::JavaScript);

    assert_eq!(findings.len(), 1, "JS taint must flow through variables and calls");
    assert!(findings[0].sink.contains("outerHTML"));
}

#[test]
fn javascript_taint_ignores_clean_assignments() {
    let source = "const q = req.query.q;\nel.textContent = q;\n";
    let tree = parse_in(Language::JavaScript, source);
    let config = TaintConfig {
        sources: vec!["req.query".into()],
        sanitizers: vec![],
        sinks: vec![".outerHTML".into()],
    };

    let findings = analyze(&tree, source, &config, Language::JavaScript);
    assert!(findings.is_empty());
}

#[test]
fn python_taint_flows_to_mark_safe() {
    let source = "def view():\n    q = request.args.get('q')\n    return mark_safe(q)\n";
    let tree = parse_in(Language::Python, source);
    let config = TaintConfig {
        sources: vec!["request.args".into()],
        sanitizers: vec![],
        sinks: vec!["mark_safe(".into()],
    };

    let findings = analyze(&tree, source, &config, Language::Python);

    assert_eq!(findings.len(), 1, "Python taint must follow assignments to sinks");
}

#[test]
fn taint_in_else_branch_is_not_erased_by_source_order() {
    let source = r#"
class X {
    void m(javax.servlet.http.HttpServletRequest req, java.sql.Statement st, boolean cond) {
        String q = "SELECT 1";
        if (cond) {
            q = req.getParameter("q");
        } else {
            q = "clean";
        }
        st.executeQuery(q);
    }
}
"#;
    let tree = parse(source);
    let findings = analyze_java(&tree, source, &sqli_config());

    assert_eq!(findings.len(), 1, "taint in one branch must survive the join");
}

#[test]
fn taint_is_cleared_when_both_branches_sanitize() {
    let source = r#"
class X {
    void m(javax.servlet.http.HttpServletRequest req, java.sql.Statement st, boolean cond) {
        String q = req.getParameter("q");
        if (cond) {
            q = escapeSql(q);
        } else {
            q = escapeSql(q);
        }
        st.executeQuery(q);
    }
}
"#;
    let tree = parse(source);
    let findings = analyze_java(&tree, source, &sqli_config());

    assert!(findings.is_empty(), "sanitizing both branches must clear taint");
}

#[test]
fn taint_assigned_only_in_loop_body_survives_loop() {
    let source = r#"
class X {
    void m(javax.servlet.http.HttpServletRequest req, java.sql.Statement st) {
        String q = "SELECT 1";
        for (int i = 0; i < 3; i++) {
            q = req.getParameter("q");
        }
        st.executeQuery(q);
    }
}
"#;
    let tree = parse(source);
    let findings = analyze_java(&tree, source, &sqli_config());

    assert_eq!(findings.len(), 1, "loop body may taint q");
}

#[test]
fn clean_loop_assignment_keeps_may_tainted_entry() {
    let source = r#"
class X {
    void m(javax.servlet.http.HttpServletRequest req, java.sql.Statement st, boolean go) {
        String q = req.getParameter("q");
        while (go) {
            q = "SELECT 1";
        }
        st.executeQuery(q);
    }
}
"#;
    let tree = parse(source);
    let findings = analyze_java(&tree, source, &sqli_config());

    assert_eq!(findings.len(), 1, "loop may not run; entry taint must be kept");
}

#[test]
fn python_taint_is_sanitized_by_escape() {
    let source = "def view():\n    q = request.args.get('q')\n    return escape(q)\n";
    let tree = parse_in(Language::Python, source);
    let config = TaintConfig {
        sources: vec!["request.args".into()],
        sanitizers: vec!["escape".into()],
        sinks: vec!["mark_safe(".into()],
    };

    let findings = analyze(&tree, source, &config, Language::Python);
    assert!(findings.is_empty());
}

#[test]
fn typescript_taint_flows_through_typed_variables() {
    let source = r#"
import { Request, Response } from "express";

function render(req: Request): string {
    const name: string = req.params.name;
    return "<div>" + name + "</div>";
}

export function handler(req: Request, res: Response) {
    res.send(render(req));
}
"#;
    let tree = parse_in(Language::TypeScript, source);
    let config = TaintConfig {
        sources: vec!["req.params".into()],
        sanitizers: vec![],
        sinks: vec!["res.send(".into()],
    };

    let findings = analyze(&tree, source, &config, Language::TypeScript);

    assert_eq!(findings.len(), 1, "TS taint must flow through typed params and returns");
    assert!(findings[0].sink.contains("res.send("));
}

#[test]
fn typescript_taint_is_cleared_by_sanitizer() {
    let source = r#"
import { Request, Response } from "express";
import { escape } from "html-escape";

export function handler(req: Request, res: Response) {
    const q: string = req.query.q as string;
    const safe = escape(q);
    res.send(safe);
}
"#;
    let tree = parse_in(Language::TypeScript, source);
    let config = TaintConfig {
        sources: vec!["req.query".into()],
        sanitizers: vec!["escape(".into()],
        sinks: vec!["res.send(".into()],
    };

    let findings = analyze(&tree, source, &config, Language::TypeScript);
    assert!(findings.is_empty(), "sanitized TS flow must not fire");
}

#[test]
fn words_inside_string_literals_are_not_identifier_matches() {
    let source = r#"
class X {
    void m(javax.servlet.http.HttpServletRequest req, java.sql.Statement st) {
        String name = req.getParameter("name");
        st.executeQuery("SELECT name FROM users WHERE id = 1");
    }
}
"#;
    let tree = parse(source);
    let findings = analyze_java(&tree, source, &sqli_config());

    assert!(findings.is_empty());
}

#[test]
fn template_literal_interpolation_still_carries_taint() {
    let source = r#"
const q = req.query.q;
el.outerHTML = `<div>${q}</div>`;
"#;
    let tree = parse_in(Language::JavaScript, source);
    let config = TaintConfig {
        sources: vec!["req.query".into()],
        sanitizers: vec![],
        sinks: vec![".outerHTML".into()],
    };

    let findings = analyze(&tree, source, &config, Language::JavaScript);
    assert_eq!(findings.len(), 1, "template interpolation carries taint");
}

#[test]
fn empty_sources_or_sinks_yield_no_findings() {
    let source = "class X { void m(R req, S st) { st.executeQuery(req.getParameter(\"q\")); } }";
    let tree = parse(source);
    let mut config = sqli_config();
    config.sources.clear();
    assert!(analyze_java(&tree, source, &config).is_empty());
    let mut config = sqli_config();
    config.sinks.clear();
    assert!(analyze_java(&tree, source, &config).is_empty());
}

#[test]
fn nested_sink_calls_are_reported_at_the_innermost_call() {
    let source = "router.get(\"/\", () => { el.insertAdjacentHTML(\"x\", req.query.q); });\n";
    let tree = parse_in(Language::JavaScript, source);
    let config = TaintConfig {
        sources: vec!["req.query".into()],
        sanitizers: vec![],
        sinks: vec!["insertAdjacentHTML".into()],
    };
    let findings: Vec<TaintFinding> = analyze(&tree, source, &config, Language::JavaScript);
    assert_eq!(findings.len(), 1);
    assert!(findings[0].sink.starts_with("el.insertAdjacentHTML("));
}

#[test]
fn finding_names_the_tainted_variable_or_the_expression() {
    let source = r#"
class X {
    String q(javax.servlet.http.HttpServletRequest req) { return req.getParameter("q"); }
    void m(javax.servlet.http.HttpServletRequest req, java.sql.Statement st) {
        String id = req.getParameter("id");
        st.executeQuery(id);
        st.execute(q(req));
    }
}
"#;
    let tree = parse(source);
    let findings = analyze_java(&tree, source, &sqli_config());
    assert_eq!(findings.len(), 2);
    assert_eq!(findings[0].tainted, "id");
    assert_eq!(findings[0].start_column, 9);
    assert_eq!(findings[1].tainted, "tainted expression");
}

fn set_of(names: &[&str]) -> VarSet {
    let mut s = VarSet::new();
    for n in names {
        s.insert(n);
    }
    s
}

#[test]
fn branch_join_keeps_taint_from_either_branch() {
    let entry = set_of(&["a", "b"]);
    // then: reassigns a clean, taints c; else: untouched.
    let then_state = set_of(&["b", "c"]);
    let then_touched = set_of(&["a", "c"]);
    let else_state = set_of(&["a", "b"]);
    let else_touched = set_of(&[]);
    let joined = join_branches(&entry, &then_state, &then_touched, &else_state, &else_touched);
    assert!(joined.contains("a"));
    assert!(joined.contains("b"));
    assert!(joined.contains("c"));
    // Both branches clean a.
    let both = join_branches(&entry, &set_of(&["b"]), &set_of(&["a"]), &set_of(&["b"]), &set_of(&["a"]));
    assert!(!both.contains("a"));
    assert!(both.contains("b"));
}
