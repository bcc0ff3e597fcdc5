use hawk_core::cache::{Cache, CACHE_SCHEMA};
use hawk_core::code_graph::{simple_type_name, GraphFileMeta, GraphSnapshot};
use hawk_core::discovery::{is_ignored_directory, FileEntry};
use hawk_core::finding::Findings;
use hawk_core::git::{changed_names, diff_arguments, GitScope};
use hawk_core::scope::{requested_paths, resolve, PathKind, ScanTarget, ScopeError};

#[test]
fn no_arguments_means_the_current_directory() {
    assert_eq!(requested_paths(&[]), vec![".".to_string()]);
    let paths = vec!["b".to_string(), "a".to_string()];
    assert_eq!(requested_paths(&paths), paths);
}

#[test]
fn targets_follow_what_the_filesystem_reports() {
    let paths = vec!["src".to_string(), "Main.java".to_string()];
    assert_eq!(
        resolve(&paths, &[PathKind::Directory, PathKind::File]),
        Ok(vec![ScanTarget::Directory("src".into()), ScanTarget::File("Main.java".into())])
    );
    let paths = vec!["src".to_string(), "gone".to_string(), "dev".to_string()];
    assert_eq!(
        resolve(&paths, &[PathKind::Directory, PathKind::Missing, PathKind::Other]),
        Err(ScopeError::PathNotFound("gone".into()))
    );
    assert_eq!(ScanTarget::File("x".into()).path(), "x");
}

#[test]
fn default_ignored_directories_are_skipped() {
    assert!(is_ignored_directory("project/node_modules"));
    assert!(is_ignored_directory(".git"));
    assert!(is_ignored_directory("a/target/"));
    assert!(!is_ignored_directory("src"));
    assert!(!is_ignored_directory("buildings"));
    assert_eq!(FileEntry::new("a.java".into()).path(), "a.java");
}

#[test]
fn git_output_is_split_on_nul_bytes() {
    assert_eq!(changed_names(b"a.java\0dir/b.py\0\0c"), vec![b"a.java".to_vec(), b"dir/b.py".to_vec(), b"c".to_vec()]);
    assert!(changed_names(b"").is_empty());
    assert_eq!(diff_arguments(GitScope::Staged), vec!["diff", "--cached", "--name-only", "-z"]);
    assert_eq!(diff_arguments(GitScope::Changed), vec!["diff", "--name-only", "-z"]);
}

fn snapshot(files: &[(&str, &str)]) -> GraphSnapshot {
    GraphSnapshot {
        schema: "s".into(),
        files: files.iter().map(|(p, h)| GraphFileMeta { path: p.to_string(), hash: h.to_string() }).collect(),
        symbols: vec![],
        edges: vec![],
        var_types: vec![],
        hierarchy: vec![],
        imports: vec![],
        namespaces: vec![],
    }
}

#[test]
fn snapshot_matches_exactly_the_hashed_files() {
    let snap = snapshot(&[("a", "1"), ("b", "2")]);
    let same = vec![("a".to_string(), Some("1".to_string())), ("b".to_string(), Some("2".to_string()))];
    assert!(snap.matches(&same));
    let unhashed = vec![
        ("a".to_string(), Some("1".to_string())),
        ("c".to_string(), None),
        ("b".to_string(), Some("2".to_string())),
    ];
    assert!(snap.matches(&unhashed));
    let changed = vec![("a".to_string(), Some("1".to_string())), ("b".to_string(), Some("3".to_string()))];
    assert!(!snap.matches(&changed));
    let fewer = vec![("a".to_string(), Some("1".to_string()))];
    assert!(!snap.matches(&fewer));
}

#[test]
fn simple_type_names_drop_qualifiers_and_arguments() {
    assert_eq!(simple_type_name("java.util.List<String>"), "List");
    assert_eq!(simple_type_name(" Foo "), "Foo");
    assert_eq!(simple_type_name("a.b."), "");
}

#[test]
fn cache_entries_are_sharded_and_checked() {
    let cache = Cache::new("/c".into());
    assert_eq!(cache.path_for("abcdef"), "/c/ab/abcdef.cache.json");
    let entry = Cache::entry_for("abcdef", &Findings::new());
    assert_eq!(entry.schema, CACHE_SCHEMA);
    assert!(Cache::reusable(entry, "abcdef").is_some());
    let entry = Cache::entry_for("abcdef", &Findings::new());
    assert!(Cache::reusable(entry, "zzz").is_none());
}

#[test]
fn simple_type_names_cut_type_arguments_before_the_qualifier() {
    assert_eq!(simple_type_name("java.util.Map<java.lang.String, User>"), "Map");
}
