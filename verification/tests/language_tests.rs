use hawk_core::language::Language;

#[test]
fn detects_supported_languages_by_extension() {
    assert_eq!(Language::from_path("Main.java"), Language::Java);
    assert_eq!(Language::from_path("app.js"), Language::JavaScript);
    assert_eq!(Language::from_path("app.tsx"), Language::TypeScript);
    assert_eq!(Language::from_path("server.py"), Language::Python);
    assert_eq!(Language::from_path("main.go"), Language::Go);
}

#[test]
fn unknown_extensions_are_not_assigned_a_language() {
    assert_eq!(Language::from_path("README.md"), Language::Unknown);
    assert_eq!(Language::from_path("binary"), Language::Unknown);
}

#[test]
fn extension_matching_is_case_sensitive() {
    assert_eq!(Language::from_path("Main.JAVA"), Language::Unknown);
}

#[test]
fn extensions_come_from_the_file_name_only() {
    assert_eq!(Language::from_path("dir.java/file"), Language::Unknown);
    assert_eq!(Language::from_path(".py"), Language::Unknown);
    assert_eq!(Language::from_path("src/a.mjs"), Language::JavaScript);
    assert_eq!(Language::from_path("pkg/x.go/"), Language::Go);
}
