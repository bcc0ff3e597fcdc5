use hawk_core::language::Language;
use hawk_core::query::execute_query;
use hawk_core::syntax::{ParseError, ParserRegistry, SourceParser, SyntaxNode, TreeSitterParser, MAX_AST_DEPTH};

#[test]
fn java_parser_produces_a_real_compilation_unit_tree() {
    let parser = TreeSitterParser { language: Language::Java };
    let tree = parser.parse("class Example { int value = 1; }").expect("valid Java should parse");
    assert_eq!(tree.root_kind(), "program");
    assert!(!tree.has_error());
}

#[test]
fn javascript_parser_produces_a_program_tree() {
    let parser = TreeSitterParser { language: Language::JavaScript };
    let tree = parser.parse("const x = 1;").expect("valid JS should parse");
    assert_eq!(tree.root_kind(), "program");
    assert!(!tree.has_error());
}

#[test]
fn typescript_parser_produces_a_program_tree() {
    let parser = TreeSitterParser { language: Language::TypeScript };
    let tree = parser
        .parse("interface X { a: string }\nconst x: X = { a: \"y\" };")
        .expect("valid TS should parse");
    assert_eq!(tree.root_kind(), "program");
    assert!(!tree.has_error());
}

#[test]
fn python_parser_produces_a_module_tree() {
    let parser = TreeSitterParser { language: Language::Python };
    let tree = parser.parse("import os\nos.system('ls')").expect("valid Python should parse");
    assert_eq!(tree.root_kind(), "module");
    assert!(!tree.has_error());
}

#[test]
fn go_parser_produces_a_source_file_tree() {
    let parser = TreeSitterParser { language: Language::Go };
    let tree = parser
        .parse("package main\nfunc main() { println(\"hi\") }")
        .expect("valid Go should parse");
    assert_eq!(tree.root_kind(), "source_file");
    assert!(!tree.has_error());
}

#[test]
fn parser_registry_returns_supported_parsers() {
    let registry = ParserRegistry::default();
    assert!(registry.parser_for(Language::Java).is_some());
    assert!(registry.parser_for(Language::JavaScript).is_some());
    assert!(registry.parser_for(Language::TypeScript).is_some());
    assert!(registry.parser_for(Language::Python).is_some());
    assert!(registry.parser_for(Language::Go).is_some());
    assert!(registry.parser_for(Language::Unknown).is_none());
}

#[test]
fn unknown_language_is_an_explicit_error() {
    let parser = TreeSitterParser { language: Language::Unknown };
    let error = parser.parse("anything").expect_err("unknown language must fail");
    assert!(matches!(error, ParseError::UnsupportedLanguage(Language::Unknown)));
}

#[test]
fn malformed_java_is_reported_as_a_tree_with_errors() {
    let parser = TreeSitterParser { language: Language::Java };
    let tree = parser.parse("class Example {").expect("Tree-sitter should still produce an error tree");
    assert!(tree.has_error());
}

#[test]
fn invalid_source_returns_a_parse_error() {
    let parser = TreeSitterParser { language: Language::Java };
    let error = parser.parse("class\0Example {}").expect_err("NUL bytes should be rejected");
    assert_eq!(error, ParseError::InvalidSource("source contains NUL byte".into()));
    assert_eq!(error.to_string(), "invalid source: source contains NUL byte");
}

#[test]
fn root_exposes_structural_information() {
    let source = "class Example { int value = 1; }";
    let parser = TreeSitterParser { language: Language::Java };
    let tree = parser.parse(source).unwrap();
    let root = &tree.root;
    assert_eq!(root.kind, "program");
    assert_eq!(root.start_byte, 0);
    assert_eq!(root.end_byte, source.len());
    assert_eq!(root.text(source), Some(source));
    assert!(root.child_count() > 0);
}

#[test]
fn children_can_be_traversed_without_exposing_tree_sitter() {
    let source = "class Example {}";
    let parser = TreeSitterParser { language: Language::Java };
    let tree = parser.parse(source).unwrap();
    let kinds: Vec<_> = tree.root.children.iter().map(|node| node.kind.clone()).collect();
    assert!(kinds.iter().any(|kind| kind == "class_declaration"));
}

#[test]
fn node_text_returns_none_for_invalid_utf8_boundaries() {
    let source = "class Example {}";
    let parser = TreeSitterParser { language: Language::Java };
    let tree = parser.parse(source).unwrap();
    assert_eq!(tree.root.text("different"), None);
}

#[test]
fn children_streaming_iterator_yields_the_same_nodes() {
    let source = "class Example { void a() { b(); } void b() {} }";
    let parser = TreeSitterParser { language: Language::Java };
    let tree = parser.parse(source).unwrap();
    let class = tree
        .root
        .children
        .iter()
        .find(|node| node.kind == "class_declaration")
        .expect("class node");
    assert!(class.children.iter().any(|node| node.kind == "class_body"));
}

#[test]
fn recursive_walk_stops_at_the_depth_guard() {
    let depth = MAX_AST_DEPTH * 4;
    let source = format!("{}x{}", "(".repeat(depth), ")".repeat(depth));
    let parser = TreeSitterParser { language: Language::JavaScript };
    let tree = parser.parse(&source).unwrap();

    fn count(node: &SyntaxNode, visited: &mut usize) {
        *visited += 1;
        for child in &node.children {
            count(child, visited);
        }
    }
    let mut visited = 0;
    count(&tree.root, &mut visited);
    assert!(visited < depth * 2, "depth guard must cut the walk short (visited {visited})");
}

#[test]
fn tree_sitter_query_matches_ast_nodes() {
    let parser = TreeSitterParser { language: Language::Java };
    let source = "class A { void run() { Runtime.getRuntime().exec(cmd); } }";
    let tree = parser.parse(source).expect("valid Java should parse");
    // Find every method invocation (the C-style "shape" pattern).
    let sites = execute_query(&tree, source, "(method_invocation) @m", None, None, Some(tree.language))
        .expect("query should parse");
    let count = sites.len();
    assert!(count >= 2, "expected method invocations, got {count}");
}

fn same_shape(a: &SyntaxNode, b: &SyntaxNode) -> bool {
    a.kind == b.kind
        && a.field == b.field
        && a.start_byte == b.start_byte
        && a.end_byte == b.end_byte
        && (a.start_row, a.start_column, a.end_row, a.end_column) == (b.start_row, b.start_column, b.end_row, b.end_column)
        && a.children.len() == b.children.len()
        && a.children.iter().zip(b.children.iter()).all(|(x, y)| same_shape(x, y))
}

#[test]
fn the_same_text_parses_to_the_same_tree() {
    let parser = TreeSitterParser { language: Language::Java };
    let source = "class A { void m(int x) { if (x > 0) { foo(x); } } }";
    let first = parser.parse(source).unwrap();
    let second = parser.parse(source).unwrap();
    assert!(same_shape(&first.root, &second.root));
    assert_eq!(first.root.kind, "program");
    assert_eq!(first.root.start_byte, 0);
    assert_eq!(first.root.end_byte, source.len());
    assert_eq!(first.root.children[0].kind, "class_declaration");
    assert_eq!(first.root.children[0].children[1].field.as_deref(), Some("name"));
}

#[test]
fn the_parser_trait_reads_through_the_same_parser() {
    let parser = TreeSitterParser { language: Language::Python };
    let dynamic: &dyn SourceParser = &parser;
    assert_eq!(dynamic.language(), Language::Python);
    let tree = dynamic.parse("import os\n").unwrap();
    assert_eq!(tree.root.kind, "module");
    assert!(matches!(dynamic.parse("a\0b"), Err(ParseError::InvalidSource(_))));
}
