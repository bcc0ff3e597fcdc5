use hawk_core::language::Language;
use hawk_core::semantic::{collect_symbols, declared_before, SymbolKind};
use hawk_core::syntax::{SyntaxTree, TreeSitterParser};

fn parse(language: Language, source: &str) -> SyntaxTree {
    let parser = TreeSitterParser { language };
    parser.parse(source).expect("test source should parse")
}

#[test]
fn java_symbols_include_classes_methods_and_variables() {
    let source = "class Foo { int x; void bar(String s) { int y = 1; } }";
    let tree = parse(Language::Java, source);
    let table = collect_symbols(&tree, source);

    assert!(table.by_name("Foo").iter().any(|s| s.kind == SymbolKind::Type));
    assert!(table.by_name("bar").iter().any(|s| s.kind == SymbolKind::Function));
    assert!(table.by_name("y").iter().any(|s| s.kind == SymbolKind::Variable));
}

#[test]
fn python_symbols_include_functions_and_classes() {
    let source = "class A:\n    def m(self):\n        pass\n";
    let tree = parse(Language::Python, source);
    let table = collect_symbols(&tree, source);

    assert!(table.by_name("A").iter().any(|s| s.kind == SymbolKind::Type));
    assert!(table.by_name("m").iter().any(|s| s.kind == SymbolKind::Function));
}

#[test]
fn go_symbols_include_functions_and_types() {
    let source = "package main\ntype T struct{}\nfunc main() {}\n";
    let tree = parse(Language::Go, source);
    let table = collect_symbols(&tree, source);

    assert!(table.by_name("T").iter().any(|s| s.kind == SymbolKind::Type));
    assert!(table.by_name("main").iter().any(|s| s.kind == SymbolKind::Function));
}

#[test]
fn used_before_reports_definition_line() {
    let source = "class A { void m() { int x = 1; use(x); } }";
    let tree = parse(Language::Java, source);
    let table = collect_symbols(&tree, source);

    let (found, line) = declared_before(&table, "x", 1);
    assert!(found);
    assert!(line.is_some());
}

#[test]
fn symbols_carry_one_based_positions_in_source_order() {
    let source = "class A {\n  void m() {}\n}\n";
    let tree = parse(Language::Java, source);
    let table = collect_symbols(&tree, source);
    let names: Vec<_> = table.iter().map(|s| (s.name.as_str(), s.line, s.column)).collect();
    assert_eq!(names, [("A", 1, 1), ("m", 2, 3)]);
    assert!(table.contains_name("m"));
    assert!(!table.contains_name("z"));
    assert_eq!(declared_before(&table, "m", 1), (false, None));
    assert_eq!(declared_before(&table, "m", 2), (true, Some(2)));
}
