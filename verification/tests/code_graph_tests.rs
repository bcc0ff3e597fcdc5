use hawk_core::code_graph::{CodeGraph, GraphFileMeta, IndexedFile};
use hawk_core::language::Language;
use hawk_core::semantic::positions_fit_exec;
use hawk_core::syntax::TreeSitterParser;
use hawk_core::taint::TaintConfig;
use hawk_core::taint_engine::{analyze, analyze_java, analyze_with_graph};

fn indexed(path: &str, language: Language, source: &str) -> IndexedFile {
    let parser = TreeSitterParser { language };
    let tree = parser.parse(source).expect("source should parse");
    assert!(positions_fit_exec(&tree.root));
    IndexedFile { path: path.to_string(), language, tree, source: source.to_string() }
}

fn sqli_config() -> TaintConfig {
    TaintConfig {
        sources: vec!["getParameter".into()],
        sanitizers: vec!["escapeSql".into()],
        sinks: vec![".executeQuery(".into(), ".execute(".into()],
    }
}

#[test]
fn indexes_symbols_and_resolves_cross_file_calls() {
    let graph = CodeGraph::build(vec![
        indexed(
            "Controller.java",
            Language::Java,
            r#"
class Controller {
    void handle(Service service) {
        service.deleteUser("x");
        st.executeQuery("SELECT 1");
    }
}
"#,
        ),
        indexed(
            "Service.java",
            Language::Java,
            r#"
class Service {
    void deleteUser(String id) {}
    String build() { return "x"; }
}
"#,
        ),
    ]);

    assert_eq!(graph.symbols.len(), 3);
    let controller = graph
        .symbols
        .iter()
        .find(|symbol| symbol.qualified_name == "Controller.handle")
        .expect("controller symbol");
    assert_eq!(controller.line, 3);
    let delete_edge =
        graph.edges.iter().find(|edge| edge.callee_text == "service.deleteUser").expect("delete edge");
    assert_eq!(graph.symbols[delete_edge.callee.unwrap()].qualified_name, "Service.deleteUser");
    let external = graph.edges.iter().find(|edge| edge.callee_text == "st.executeQuery").expect("external edge");
    assert!(external.callee.is_none(), "library calls stay unresolved");
}

#[test]
fn same_file_calls_prefer_local_definitions() {
    let graph = CodeGraph::build(vec![indexed(
        "App.java",
        Language::Java,
        r#"
class A {
    void run() { helper(); }
    void helper() {}
}
class B {
    void helper() {}
}
"#,
    )]);
    let edge = graph.edges.iter().find(|e| e.callee_text == "helper").unwrap();
    let callee = &graph.symbols[edge.callee.unwrap()];
    assert_eq!(callee.qualified_name, "A.helper");
}

#[test]
fn type_guided_resolution_distinguishes_same_named_methods() {
    let graph = CodeGraph::build(vec![indexed(
        "App.java",
        Language::Java,
        r#"
class A {
    void handle(B b, C c) {
        b.run();
        c.run();
    }
}
class B { void run() {} }
class C { void run() {} }
"#,
    )]);
    let b_edge = graph.edges.iter().find(|edge| edge.callee_text == "b.run").expect("b.run edge");
    assert_eq!(graph.symbols[b_edge.callee.unwrap()].qualified_name, "B.run");
    let c_edge = graph.edges.iter().find(|edge| edge.callee_text == "c.run").expect("c.run edge");
    assert_eq!(graph.symbols[c_edge.callee.unwrap()].qualified_name, "C.run");
}

#[test]
fn hierarchy_resolution_finds_inherited_and_implemented_methods() {
    let graph = CodeGraph::build(vec![indexed(
        "App.java",
        Language::Java,
        r#"
class Base {
    void inherited() {}
}
class Impl extends Base implements Service {
    void own() {}
}
interface Service {
    void contract();
}
class ServiceImpl implements Service {
    void contract() {}
}
class User {
    void handle(Impl impl, Service svc) {
        impl.inherited();
        impl.own();
        svc.contract();
    }
}
"#,
    )]);
    let edge = |text: &str| graph.edges.iter().find(|edge| edge.callee_text == text).expect(text);
    assert_eq!(graph.symbols[edge("impl.inherited").callee.unwrap()].qualified_name, "Base.inherited");
    assert_eq!(graph.symbols[edge("impl.own").callee.unwrap()].qualified_name, "Impl.own");
    assert_eq!(graph.symbols[edge("svc.contract").callee.unwrap()].qualified_name, "ServiceImpl.contract");
}

#[test]
fn import_resolution_binds_calls_to_imported_files() {
    let graph = CodeGraph::build(vec![
        indexed(
            "handler.ts",
            Language::TypeScript,
            r#"
import { deleteUser, helper as h } from "./UserService";
import * as api from "./Api";
export function handle(id: string) {
    deleteUser(id);
    h(id);
    api.lookup(id);
}
"#,
        ),
        indexed(
            "UserService.ts",
            Language::TypeScript,
            "export function deleteUser(id: string) {}
export function helper(id: string) {}
",
        ),
        indexed("Api.ts", Language::TypeScript, "export function lookup(id: string) {}
"),
    ]);
    let edge = |text: &str| graph.edges.iter().find(|edge| edge.callee_text == text).expect(text);
    assert_eq!(graph.symbols[edge("deleteUser").callee.unwrap()].qualified_name, "deleteUser");
    assert_eq!(graph.symbols[edge("deleteUser").callee.unwrap()].file, "UserService.ts");
    assert_eq!(graph.symbols[edge("h").callee.unwrap()].file, "UserService.ts");
    assert_eq!(graph.symbols[edge("api.lookup").callee.unwrap()].file, "Api.ts");
}

#[test]
fn python_from_import_resolves_cross_file_calls() {
    let graph = CodeGraph::build(vec![
        indexed(
            "views.py",
            Language::Python,
            "from user_service import delete_user

def view():
    delete_user(user_id)
",
        ),
        indexed(
            "user_service.py",
            Language::Python,
            "def delete_user(user_id):
    pass
",
        ),
    ]);
    let edge = graph.edges.iter().find(|edge| edge.callee_text == "delete_user").expect("delete_user edge");
    assert_eq!(graph.symbols[edge.callee.unwrap()].file, "user_service.py");
}

#[test]
fn resolved_callees_are_listed_per_calling_file_and_name() {
    let graph = CodeGraph::build(vec![
        indexed(
            "Controller.java",
            Language::Java,
            "class Controller { void handle(UserService s) { s.deleteUser(); s.deleteUser(); } }",
        ),
        indexed("UserService.java", Language::Java, "class UserService { void deleteUser() {} }"),
    ]);
    let target = graph.symbols.iter().find(|s| s.name == "deleteUser").unwrap();
    let resolved = graph.resolved_callees_for_file("Controller.java", "deleteUser");
    assert_eq!(resolved, vec![(target.file_index, target.start_byte)]);
    assert!(graph.resolved_callees_for_file("Missing.java", "deleteUser").is_empty());
    assert_eq!(graph.name_locations("deleteUser"), vec![(target.file_index, target.start_byte)]);
    let file = graph.indexed_file(target.file_index).unwrap();
    assert!(file.method_node_at_byte(target.start_byte).is_some());
    assert!(file.method_node_at(target.line).is_some());
    assert!(graph.indexed_file(99).is_none());
}

fn java_tree(source: &str) -> hawk_core::syntax::SyntaxTree {
    let tree = TreeSitterParser { language: Language::Java }.parse(source).unwrap();
    assert!(positions_fit_exec(&tree.root));
    tree
}

#[test]
fn cross_file_sink_inside_callee_is_reported_at_call_site() {
    let controller = r#"
class Controller {
    void handle(UserService service, java.sql.Statement st, javax.servlet.http.HttpServletRequest req) {
        service.deleteUser(req.getParameter("id"), st);
    }
}
"#;
    let service = r#"
class UserService {
    void deleteUser(String userId, java.sql.Statement st) {
        st.executeQuery("DELETE FROM users WHERE id='" + userId + "'");
    }
}
"#;
    let graph = CodeGraph::build(vec![
        indexed("Controller.java", Language::Java, controller),
        indexed("UserService.java", Language::Java, service),
    ]);
    let tree = java_tree(controller);

    let alone = analyze(&tree, controller, &sqli_config(), Language::Java);
    assert!(alone.is_empty(), "sink in another file needs the code graph");

    let findings = analyze_with_graph(&tree, controller, &sqli_config(), Language::Java, Some(&graph), None);
    assert_eq!(findings.len(), 1, "cross-file sink must fire at the call site");
    assert!(findings[0].sink.contains("reaches sink"), "finding should name the callee sink: {}", findings[0].sink);
}

#[test]
fn cross_file_return_value_taint_flows_to_caller_sink() {
    let controller = r#"
class Controller {
    void handle(UserService service, java.sql.Statement st, javax.servlet.http.HttpServletRequest req) {
        String sql = service.buildQuery(req.getParameter("id"));
        st.executeQuery(sql);
    }
}
"#;
    let service = r#"
class UserService {
    String buildQuery(String input) {
        return "SELECT * FROM users WHERE id=" + input;
    }
}
"#;
    let graph = CodeGraph::build(vec![
        indexed("Controller.java", Language::Java, controller),
        indexed("UserService.java", Language::Java, service),
    ]);
    let tree = java_tree(controller);
    let findings = analyze_with_graph(&tree, controller, &sqli_config(), Language::Java, Some(&graph), None);
    assert_eq!(findings.len(), 1, "cross-file return taint must reach the caller's sink");
    assert_eq!(findings[0].sink, "st.executeQuery(sql)");
}

#[test]
fn cross_file_clean_call_produces_no_finding() {
    let controller = r#"
class Controller {
    void handle(UserService service, java.sql.Statement st) {
        service.deleteUser("admin", st);
    }
}
"#;
    let service = r#"
class UserService {
    void deleteUser(String userId, java.sql.Statement st) {
        st.executeQuery("DELETE FROM users WHERE id='" + userId + "'");
    }
}
"#;
    let graph = CodeGraph::build(vec![
        indexed("Controller.java", Language::Java, controller),
        indexed("UserService.java", Language::Java, service),
    ]);
    let tree = java_tree(controller);
    let findings = analyze_with_graph(&tree, controller, &sqli_config(), Language::Java, Some(&graph), None);
    assert!(findings.is_empty(), "literal arguments must stay clean");
}

#[test]
fn cross_file_taint_follows_multi_hop_chains() {
    let controller = r#"
class Controller {
    void handle(UserService service, javax.servlet.http.HttpServletRequest req) {
        service.deleteUser(req.getParameter("id"));
    }
}
"#;
    let service = r#"
class UserService {
    void deleteUser(String userId, UserRepository repo) {
        repo.delete(userId);
    }
}
"#;
    let repository = r#"
class UserRepository {
    void delete(String userId, java.sql.Statement st) {
        st.executeQuery("DELETE FROM users WHERE id='" + userId + "'");
    }
}
"#;
    let graph = CodeGraph::build(vec![
        indexed("Controller.java", Language::Java, controller),
        indexed("UserService.java", Language::Java, service),
        indexed("UserRepository.java", Language::Java, repository),
    ]);
    let tree = java_tree(controller);
    let findings = analyze_with_graph(&tree, controller, &sqli_config(), Language::Java, Some(&graph), None);
    assert_eq!(findings.len(), 1, "taint must travel controller -> service -> repository");
    assert!(findings[0].sink.contains("st.executeQuery"), "finding must name the deep sink: {}", findings[0].sink);
}

#[test]
fn cross_file_variable_argument_carries_taint_into_callee() {
    let controller = r#"
class Controller {
    void handle(UserService service, java.sql.Statement st, javax.servlet.http.HttpServletRequest req) {
        String id = req.getParameter("id");
        String sql = service.buildQuery(id);
        st.executeQuery(sql);
    }
}
"#;
    let service = r#"
class UserService {
    String buildQuery(String input) {
        return "SELECT * FROM users WHERE id=" + input;
    }
}
"#;
    let graph = CodeGraph::build(vec![
        indexed("Controller.java", Language::Java, controller),
        indexed("UserService.java", Language::Java, service),
    ]);
    let tree = java_tree(controller);
    let findings = analyze_with_graph(&tree, controller, &sqli_config(), Language::Java, Some(&graph), None);
    assert_eq!(findings.len(), 1, "a tainted local variable passed across files must propagate");
    assert_eq!(findings[0].sink, "st.executeQuery(sql)");
}

#[test]
fn cross_file_resolution_through_the_calling_files_edges() {
    let controller = r#"
class Controller {
    void handle(UserService service, java.sql.Statement st, javax.servlet.http.HttpServletRequest req) {
        service.deleteUser(req.getParameter("id"), st);
    }
}
"#;
    let service = r#"
class UserService {
    void deleteUser(String userId, java.sql.Statement st) {
        st.executeQuery("DELETE FROM users WHERE id='" + userId + "'");
    }
}
"#;
    let graph = CodeGraph::build(vec![
        indexed("Controller.java", Language::Java, controller),
        indexed("UserService.java", Language::Java, service),
    ]);
    let tree = java_tree(controller);
    let findings =
        analyze_with_graph(&tree, controller, &sqli_config(), Language::Java, Some(&graph), Some("Controller.java"));
    assert_eq!(findings.len(), 1);
}

#[test]
fn self_recursive_method_does_not_loop_forever() {
    let source = r#"
class Cache {
    java.util.Map<String, String> entries;

    String get(String key) {
        var entry = entries.get(key);
        return entry == null ? "" : entry;
    }

    void run(javax.servlet.http.HttpServletRequest req, java.sql.Statement st) {
        var id = req.getParameter("id");
        st.executeQuery("SELECT * FROM t WHERE id='" + get(id) + "'");
    }
}
"#;
    let tree = java_tree(source);
    let findings = analyze_java(&tree, source, &sqli_config());

    assert_eq!(findings.len(), 1, "recursive callee must terminate and not lose the real flow");
    assert_eq!(findings[0].sink, "st.executeQuery(\"SELECT * FROM t WHERE id='\" + get(id) + \"'\")");
}

#[test]
fn mutually_recursive_methods_do_not_loop_forever() {
    let source = r#"
class Pair {
    String a(String v) { return b(v); }
    String b(String v) {
        var x = a(v);
        return x;
    }

    void handle(javax.servlet.http.HttpServletRequest req, java.sql.Statement st) {
        var id = req.getParameter("id");
        var unused = a("fixed");
        st.executeQuery("SELECT * FROM t WHERE id='" + a(id) + "'");
    }
}
"#;
    let tree = java_tree(source);
    let findings = analyze_java(&tree, source, &sqli_config());

    assert_eq!(findings.len(), 1, "mutual recursion must terminate and keep the real flow");
    assert!(findings[0].sink.contains("executeQuery"), "finding should name the sink call");
}

#[test]
fn snapshot_round_trip_preserves_symbols_edges_and_resolution() {
    let files = vec![
        indexed(
            "Controller.java",
            Language::Java,
            r#"
class Controller {
    void handle(UserService service) {
        service.deleteUser("x");
    }
}
"#,
        ),
        indexed(
            "UserService.java",
            Language::Java,
            r#"
class UserService {
    void deleteUser(String id) {}
}
"#,
        ),
    ];
    let graph = CodeGraph::build(files);
    let mut snapshot = graph.snapshot_with(vec![
        GraphFileMeta { path: "Controller.java".into(), hash: "h1".into() },
        GraphFileMeta { path: "UserService.java".into(), hash: "h2".into() },
    ]);
    snapshot.schema = "test".into();

    assert!(snapshot.matches(&[
        ("Controller.java".to_string(), Some("h1".to_string())),
        ("UserService.java".to_string(), Some("h2".to_string())),
    ]));
    assert!(!snapshot.matches(&[
        ("Controller.java".to_string(), Some("h1".to_string())),
        ("UserService.java".to_string(), Some("h2-changed".to_string())),
    ]));
    assert!(!snapshot.matches(&[("Controller.java".to_string(), Some("h1".to_string()))]));

    assert!(snapshot.consistent());
    let restored = CodeGraph::from_snapshot(&snapshot);
    assert_eq!(restored.symbols.len(), graph.symbols.len());
    assert_eq!(restored.edges.len(), graph.edges.len());
    assert_eq!(
        restored.resolved_callees_for_file("Controller.java", "deleteUser"),
        graph.resolved_callees_for_file("Controller.java", "deleteUser"),
    );
    // Placeholder files exist for display, but carry no tree.
    assert_eq!(restored.files.len(), 2);
}

#[test]
fn restored_files_take_their_content_back_on_demand() {
    let controller = "class Controller { void handle(UserService s) { s.deleteUser(); } }";
    let service = "class UserService { void deleteUser() {} }";
    let graph = CodeGraph::build(vec![
        indexed("Controller.java", Language::Java, controller),
        indexed("UserService.java", Language::Java, service),
    ]);
    let snapshot = graph.snapshot_with(vec![
        GraphFileMeta { path: "Controller.java".into(), hash: "h1".into() },
        GraphFileMeta { path: "UserService.java".into(), hash: "h2".into() },
    ]);
    assert!(snapshot.consistent());
    let mut restored = CodeGraph::from_snapshot(&snapshot);
    let target = restored.symbols.iter().find(|s| s.name == "deleteUser").unwrap();
    let (index, start) = (target.file_index, target.start_byte);
    assert!(restored.indexed_file(index).unwrap().method_node_at_byte(start).is_none());
    assert_eq!(restored.files[index].language, Language::Java);
    restored.restore_file(index, java_tree(service), service.to_string());
    let file = restored.indexed_file(index).expect("restored file");
    assert_eq!(file.path, "UserService.java");
    assert!(file.method_node_at_byte(start).is_some());
    assert!(restored.indexed_file(99).is_none());
}

#[test]
fn snapshot_whose_files_shifted_is_not_restorable() {
    let graph = CodeGraph::build(vec![indexed(
        "A.java",
        Language::Java,
        "class A { void run() { helper(); } void helper() {} }",
    )]);
    // A file without an index entry recorded first shifts the file positions.
    let snapshot = graph.snapshot_with(vec![
        GraphFileMeta { path: "README.md".into(), hash: "h0".into() },
        GraphFileMeta { path: "A.java".into(), hash: "h1".into() },
    ]);
    assert!(!snapshot.consistent());
}

#[test]
fn python_aliased_import_keeps_the_imported_name() {
    let graph = CodeGraph::build(vec![indexed("v.py", Language::Python, "from m import x as y\n")]);
    assert_eq!(graph.imports, vec![(0, "y".to_string(), "m".to_string(), "x".to_string())]);
    assert!(graph.namespaces.is_empty());
}
