use hawk_core::finding::{Confidence, Severity};
use hawk_core::language::Language;
use hawk_core::pack::{
    compile_packs, compile_single_rule, line_column, validate_pack_dir, CompiledRule, PackError, PackMeta, PackRegistry,
    PatternRule, QueryRule, Rule,
};
use hawk_core::query::{execute_query, parse_predicate, predicates_close_exec, query_values_suffice, split_predicates};
use hawk_core::semantic::positions_fit_exec;
use hawk_core::syntax::TreeSitterParser;
use hawk_core::taint::TaintConfig;

fn rule(id: &str) -> Rule {
    Rule {
        id: id.into(),
        name: "Rule A".into(),
        description: "d".into(),
        recommendation: None,
        category: None,
        severity: Severity::High,
        confidence: Confidence::High,
        languages: vec![Language::Java],
        cwe: None,
        owasp: None,
        framework: None,
        pattern: None,
        taint: None,
        query: None,
        source: "inline".into(),
    }
}

fn compile(r: Rule) -> CompiledRule {
    match CompiledRule::compile(r) {
        Ok(c) => c,
        Err((_, message)) => panic!("rule should compile: {message}"),
    }
}

#[test]
fn not_regex_excludes_matching_text_and_fix_is_attached() {
    let rule = compile(Rule {
        pattern: Some(PatternRule {
            regex: r"exec\(".to_string(),
            not_regex: Some(r"'safe'".to_string()),
            fix: Some("avoid exec".to_string()),
        }),
        ..rule("rule.a")
    });

    let excluded = rule.check("exec('safe')", "A.java");
    assert!(excluded.is_empty(), "not-regex should exclude the safe literal");

    let fired = rule.check("exec(userInput);", "A.java");
    assert_eq!(fired.len(), 1);
    assert_eq!(fired[0].recommendation.as_deref(), Some("Suggested fix: avoid exec"));
}

#[test]
fn query_rule_matches_ast_nodes_and_reports_findings() {
    let query_rule = compile(Rule {
        id: "java.security.trace-log".into(),
        name: "Tracing call".into(),
        description: "Logging of sensitive operation".into(),
        category: Some("logging".into()),
        severity: Severity::Low,
        confidence: Confidence::Low,
        query: Some(QueryRule { tree_sitter: "(method_invocation) @call".into(), anchor: None, not_regex: None }),
        ..rule("x")
    });

    let parser = TreeSitterParser { language: Language::Java };
    let source = "class A { void m() { a.b(); c.d(); } }";
    let tree = parser.parse(source).expect("java should parse");
    assert!(positions_fit_exec(&tree.root));

    let findings = query_rule.check_parsed(&tree, source, "A.java");
    assert_eq!(findings.len(), 2, "expected two query matches, got {}", findings.len());
    assert_eq!(findings[0].category.as_deref(), Some("logging"));
    assert_eq!(findings[0].location.start_line, 1);
    assert_eq!(findings[0].location.start_column, 22);
}

#[test]
fn query_anchor_selects_the_finding_node_and_not_regex_filters_matches() {
    let query_rule = compile(Rule {
        id: "java.security.dynamic-classload".into(),
        name: "Dynamic class loading".into(),
        description: "Reflection with a non-literal class name".into(),
        category: Some("reflection".into()),
        severity: Severity::Medium,
        confidence: Confidence::Medium,
        query: Some(QueryRule {
            tree_sitter: r#"
(method_invocation
  object: (identifier) @object
  name: (identifier) @name
  arguments: (argument_list) @args
) @call
(#eq? @name "forName")
"#
            .into(),
            anchor: Some("call".into()),
            not_regex: Some("forName\\s*\\(\\s*[\"']".into()),
        }),
        ..rule("x")
    });

    let parser = TreeSitterParser { language: Language::Java };
    let source = "class A { void m(String n) { Class.forName(\"a.B\"); Class.forName(n); } }";
    let tree = parser.parse(source).expect("java should parse");
    assert!(predicates_close_exec(&query_rule.def.query.as_ref().unwrap().tree_sitter));

    let findings = query_rule.check_parsed(&tree, source, "A.java");
    assert_eq!(findings.len(), 1, "literal reflection must be filtered");
    assert!(findings[0].message.contains("Dynamic class loading"));
}

#[test]
fn a_query_that_does_not_compile_is_reported_as_a_finding() {
    let query_rule = compile(Rule {
        query: Some(QueryRule { tree_sitter: "(not_a_real_node_kind) @x".into(), anchor: None, not_regex: None }),
        ..rule("java.bad-query")
    });
    let parser = TreeSitterParser { language: Language::Java };
    let source = "class A {}";
    let tree = parser.parse(source).unwrap();
    let findings = query_rule.check_parsed(&tree, source, "A.java");
    assert_eq!(findings.len(), 1);
    assert_eq!(findings[0].rule_id, "java.bad-query:query-error");
    assert!(findings[0].message.starts_with("tree-sitter query failed: "));
    assert_eq!(findings[0].location.start_line, 1);

    let no_language = compile(Rule {
        languages: vec![],
        query: Some(QueryRule { tree_sitter: "(identifier) @x".into(), anchor: None, not_regex: None }),
        ..rule("java.no-lang")
    });
    let findings = no_language.check_parsed(&tree, source, "A.java");
    assert_eq!(findings[0].message, "tree-sitter query failed: query rules require a declared language");
}

#[test]
fn taint_rules_run_the_taint_walk_on_parsed_files() {
    let taint_rule = compile(Rule {
        taint: Some(TaintConfig {
            sources: vec!["getParameter".into()],
            sanitizers: vec![],
            sinks: vec![".executeQuery(".into()],
        }),
        ..rule("java.sqli")
    });
    let source = "class X { void m(R req, S st) {\n String id = req.getParameter(\"id\");\n st.executeQuery(id);\n} }";
    let tree = TreeSitterParser { language: Language::Java }.parse(source).unwrap();
    let findings = taint_rule.check_parsed(&tree, source, "X.java");
    assert_eq!(findings.len(), 1);
    assert_eq!(findings[0].rule_id, "java.sqli");
    assert_eq!(findings[0].location.start_line, 3);
    assert_eq!(findings[0].code_snippet.as_deref(), Some("st.executeQuery(id);"));
    assert_eq!(findings[0].message, "Tainted data from id reached sink st.executeQuery(id).");
}

#[test]
fn predicates_are_split_out_of_queries() {
    let (clean, predicates) = split_predicates("(call) @c (#eq? @c \"x\") (#match? @c \"a(b\")");
    assert_eq!(clean, "(call) @c    ");
    assert_eq!(predicates.len(), 2);
    assert_eq!(predicates[0].operator, "eq");
    assert_eq!(predicates[0].capture, "c");
    assert_eq!(predicates[0].values, vec!["x".to_string()]);
    assert!(predicates[0].regex.is_none());
    assert_eq!(predicates[1].operator, "match");
    assert!(predicates[1].regex.is_none(), "an invalid pattern compiles to nothing");

    let p = parse_predicate("( #not-any-of? @name \"a\" \"b\\\"c\" )").unwrap();
    assert_eq!(p.operator, "not-any-of");
    assert_eq!(p.values, vec!["a".to_string(), "b\\\"c".to_string()]);
    assert!(parse_predicate("(#eq? @x\"a\")").is_none());
    assert!(parse_predicate("(#eq? x \"a\")").is_none());
    assert!(parse_predicate("(#eq? @x \"a\") trailing").is_none());

    assert!(predicates_close_exec("(#eq? @x \"a\")"));
    assert!(!predicates_close_exec("(#eq? @x \"a\\"));
    assert!(predicates_close_exec("(x) @x (#eq? @x)"));
}

#[test]
fn line_and_column_are_one_based_characters() {
    assert_eq!(line_column("ab\ncd", 4), (2, 2));
    assert_eq!(line_column("é\nx", 3), (2, 1));
    assert_eq!(line_column("abc", 99), (1, 4));
}

fn pattern_rule(id: &str, source: &str) -> Rule {
    Rule {
        pattern: Some(PatternRule { regex: "x".into(), not_regex: None, fix: None }),
        source: source.into(),
        ..rule(id)
    }
}

fn meta(name: &str) -> PackMeta {
    PackMeta { name: name.into(), version: "1.0.0".into(), description: None, authors: None, min_hawk: None }
}

#[test]
fn registry_loads_packs_and_rejects_duplicate_rule_ids() {
    let mut registry = PackRegistry::new();
    assert_eq!(registry.count(), 0);
    registry.load_pack("packs/a", meta("a"), vec![pattern_rule("r.one", "a/one.toml")]).unwrap();
    registry.load_pack("packs/b", meta("b"), vec![pattern_rule("r.two", "b/two.toml")]).unwrap();
    assert_eq!(registry.count(), 2);
    assert_eq!(registry.pack_names(), vec!["a".to_string(), "b".to_string()]);

    let error = registry.load_pack("packs/c", meta("c"), vec![pattern_rule("r.one", "c/one.toml")]).unwrap_err();
    assert_eq!(
        error,
        PackError::DuplicateId { id: "r.one".into(), first: "a/one.toml".into(), second: "c/one.toml".into() }
    );
    assert_eq!(registry.count(), 2, "a rejected pack leaves the registry unchanged");

    let bad = Rule { pattern: Some(PatternRule { regex: "(".into(), not_regex: None, fix: None }), ..rule("r.bad") };
    match registry.load_pack("packs/d", meta("d"), vec![bad]).unwrap_err() {
        PackError::Validate { message } => assert!(message.starts_with("rule 'r.bad' in 'packs/d': ")),
        other => panic!("unexpected {other:?}"),
    }

    registry.select_packs(&["b".to_string()]);
    assert_eq!(registry.pack_names(), vec!["b".to_string()]);
    registry.select_packs(&[]);
    assert_eq!(registry.count(), 1);
}

#[test]
fn cache_namespace_follows_the_loaded_rules() {
    let mut first = PackRegistry::new();
    first.load_pack("p", meta("a"), vec![pattern_rule("r.one", "one.toml")]).unwrap();
    let mut second = PackRegistry::new();
    second.load_pack("p", meta("a"), vec![pattern_rule("r.one", "elsewhere.toml")]).unwrap();
    assert_eq!(first.cache_namespace(), second.cache_namespace());
    assert!(first.cache_namespace().starts_with("0.1.0:"));
    let mut third = PackRegistry::new();
    third.load_pack("p", meta("a"), vec![pattern_rule("r.two", "one.toml")]).unwrap();
    assert_ne!(first.cache_namespace(), third.cache_namespace());
    assert_eq!(PackRegistry::new().cache_namespace().len(), "0.1.0:".len() + 16);
}

#[test]
fn validating_a_pack_checks_version_then_rules() {
    let ok = validate_pack_dir(meta("a"), vec![pattern_rule("r.one", "one.toml")]).unwrap();
    assert_eq!(ok.name, "a");
    let too_new = PackMeta { min_hawk: Some("2.0".into()), ..meta("a") };
    let bad = Rule { pattern: Some(PatternRule { regex: "(".into(), not_regex: None, fix: None }), ..rule("r.bad") };
    assert_eq!(
        validate_pack_dir(too_new, vec![]).unwrap_err(),
        PackError::Validate { message: "pack 'a' requires hawk >= 2.0, but this is 0.1.0".into() }
    );
    match validate_pack_dir(meta("a"), vec![pattern_rule("r.one", "one.toml"), bad]).unwrap_err() {
        PackError::Validate { message } => assert!(message.starts_with("rule 'r.bad': invalid pattern regex: ")),
        other => panic!("unexpected {other:?}"),
    }
}

#[test]
fn built_in_packs_compile_in_order() {
    let packs = compile_packs(vec![
        (meta("java"), vec![pattern_rule("j.one", "built-in:java/one")]),
        (meta("python"), vec![pattern_rule("p.one", "built-in:python/one"), pattern_rule("p.two", "x")]),
    ])
    .unwrap();
    assert_eq!(packs.len(), 2);
    assert_eq!(packs[1].1.len(), 2);
    assert_eq!(packs[1].1[1].id(), "p.two");
    let registry = PackRegistry::with_built_in(vec![(meta("java"), vec![pattern_rule("j.one", "s")])]).unwrap();
    assert_eq!(registry.pack_names(), vec!["java".to_string()]);
    let bad = Rule {
        pattern: Some(PatternRule { regex: "x".into(), not_regex: Some("[".into()), fix: None }),
        ..rule("j.bad")
    };
    match PackRegistry::with_built_in(vec![(meta("java"), vec![bad])]).err().unwrap() {
        PackError::Validate { message } => assert!(message.starts_with("built-in rule 'j.bad': invalid not-regex: ")),
        other => panic!("unexpected {other:?}"),
    }
    let single = compile_single_rule(pattern_rule("s.one", "s.toml")).unwrap();
    assert_eq!(single.id(), "s.one");
}

#[test]
fn rule_categories_count_rules_by_category_name() {
    let categorized = |id: &str, category: Option<&str>| Rule {
        category: category.map(|c| c.to_string()),
        ..pattern_rule(id, id)
    };
    let mut registry = PackRegistry::new();
    registry
        .load_pack(
            "p",
            meta("a"),
            vec![categorized("r.1", Some("injection")), categorized("r.2", None), categorized("r.3", Some("crypto"))],
        )
        .unwrap();
    registry.load_pack("q", meta("b"), vec![categorized("r.4", Some("injection")), categorized("r.5", Some("Zeta"))]).unwrap();
    assert_eq!(
        registry.rule_categories(),
        vec![
            ("Zeta".to_string(), 1),
            ("crypto".to_string(), 1),
            ("injection".to_string(), 2),
            ("uncategorized".to_string(), 1),
        ]
    );
    assert!(PackRegistry::new().rule_categories().is_empty());
}

#[test]
fn a_query_runs_only_over_the_text_its_tree_was_parsed_from() {
    let tree = TreeSitterParser { language: Language::Java }.parse("class A { void m() { a.b(); } }").unwrap();
    let query = "((method_invocation) @c ( #eq? @c \"a.b()\"))";
    let elsewhere = execute_query(&tree, "x", query, None, None, Some(Language::Java)).unwrap();
    assert!(elsewhere.is_empty());
    let here = execute_query(&tree, "class A { void m() { a.b(); } }", query, None, None, Some(Language::Java)).unwrap();
    assert_eq!(here.len(), 1);
}

#[test]
fn a_predicate_without_a_value_only_matters_where_its_capture_has_text() {
    let source = "class A { void m() { foo(); } }";
    let tree = TreeSitterParser { language: Language::Java }.parse(source).unwrap();
    // `@absent` captures nothing: the valueless `eq` fails and `not-eq` holds.
    let never = "((method_invocation) @call (#eq? @absent))";
    assert!(query_values_suffice(&tree, source, never, None, Language::Java));
    let sites = execute_query(&tree, source, never, None, None, Some(Language::Java)).unwrap();
    assert!(sites.is_empty());
    let holds = "((method_invocation) @call (#not-eq? @absent))";
    assert!(query_values_suffice(&tree, source, holds, None, Language::Java));
    let sites = execute_query(&tree, source, holds, None, None, Some(Language::Java)).unwrap();
    assert_eq!(sites.len(), 1);
    // Where the capture has text there is nothing to compare it with.
    assert!(!query_values_suffice(&tree, source, "((method_invocation) @call (#eq? @call))", None, Language::Java));
    // A predicate that fails first keeps the valueless one from being reached.
    let guarded = "((method_invocation) @call (#eq? @call \"bar()\") (#eq? @call))";
    assert!(query_values_suffice(&tree, source, guarded, None, Language::Java));
    assert!(execute_query(&tree, source, guarded, None, None, Some(Language::Java)).unwrap().is_empty());
}
