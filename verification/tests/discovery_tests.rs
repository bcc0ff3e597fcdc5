use std::collections::BTreeMap;

use hawk_core::discovery::{discover, is_excluded, without_excluded, DiscoveryStep, EntryKind, FileEntry, ListedEntry};
use hawk_core::scope::ScanTarget;

/// An in-memory directory tree: directory path -> entries (name, kind).
type FakeDirs = BTreeMap<&'static str, Vec<(&'static str, EntryKind)>>;

fn run(targets: Vec<ScanTarget>, tree: &FakeDirs, regular_files: &[&str]) -> Vec<String> {
    let mut discovery = discover(&targets);
    loop {
        match discovery.next_step() {
            DiscoveryStep::Done => break,
            DiscoveryStep::Metadata(path) => discovery.on_metadata(regular_files.contains(&path.as_str())),
            DiscoveryStep::Listing(dir) => {
                let entries = tree
                    .get(dir.as_str())
                    .map(|entries| {
                        entries
                            .iter()
                            .map(|(name, kind)| ListedEntry {
                                name: name.as_bytes().to_vec(),
                                path: format!("{dir}/{name}"),
                                kind: *kind,
                            })
                            .collect()
                    })
                    .unwrap_or_default();
                discovery.on_listing(entries);
            }
        }
    }
    discovery.finish().iter().map(|f| f.path().to_string()).collect()
}

#[test]
fn discovers_regular_files_recursively() {
    let mut tree = FakeDirs::new();
    tree.insert("root", vec![("src", EntryKind::Directory)]);
    tree.insert("root/src", vec![("internal", EntryKind::Directory), ("First.java", EntryKind::File)]);
    tree.insert("root/src/internal", vec![("Second.java", EntryKind::File)]);
    let files = run(vec![ScanTarget::Directory("root".into())], &tree, &[]);
    assert_eq!(files, vec!["root/src/First.java", "root/src/internal/Second.java"]);
}

#[test]
fn discovers_a_file_target_without_traversal() {
    let tree = FakeDirs::new();
    let files = run(vec![ScanTarget::File("Example.java".into())], &tree, &["Example.java"]);
    assert_eq!(files, vec!["Example.java"]);
    let files = run(vec![ScanTarget::File("fifo".into())], &tree, &[]);
    assert!(files.is_empty());
}

#[test]
fn skips_default_ignored_directories() {
    let mut tree = FakeDirs::new();
    tree.insert(
        "root",
        vec![
            ("src", EntryKind::Directory),
            ("target", EntryKind::Directory),
            ("node_modules", EntryKind::Directory),
            ("dist", EntryKind::Directory),
            ("build", EntryKind::Directory),
            (".git", EntryKind::Directory),
        ],
    );
    tree.insert("root/src", vec![("Main.java", EntryKind::File)]);
    tree.insert("root/target", vec![("generated.java", EntryKind::File)]);
    tree.insert("root/node_modules", vec![("package.js", EntryKind::File)]);
    tree.insert("root/dist", vec![("bundle.js", EntryKind::File)]);
    tree.insert("root/build", vec![("output.js", EntryKind::File)]);
    tree.insert("root/.git", vec![("config", EntryKind::File)]);
    let files = run(vec![ScanTarget::Directory("root".into())], &tree, &[]);
    assert_eq!(files, vec!["root/src/Main.java"]);
}

#[test]
fn discovery_order_is_deterministic() {
    let mut tree = FakeDirs::new();
    tree.insert("root", vec![("z", EntryKind::Directory), ("a", EntryKind::Directory), ("m", EntryKind::Directory)]);
    tree.insert("root/z", vec![("Z.java", EntryKind::File)]);
    tree.insert("root/a", vec![("A.java", EntryKind::File)]);
    tree.insert("root/m", vec![("M.java", EntryKind::File)]);
    let files = run(vec![ScanTarget::Directory("root".into())], &tree, &[]);
    assert_eq!(files, vec!["root/a/A.java", "root/m/M.java", "root/z/Z.java"]);
}

#[test]
fn symbolic_links_and_special_files_are_not_followed() {
    let mut tree = FakeDirs::new();
    tree.insert(
        "root",
        vec![("link", EntryKind::Symlink), ("B.java", EntryKind::File), ("sock", EntryKind::Other), ("A.java", EntryKind::File)],
    );
    tree.insert("root/link", vec![("Hidden.java", EntryKind::File)]);
    let files = run(
        vec![ScanTarget::Directory("root".into()), ScanTarget::File("Solo.java".into())],
        &tree,
        &["Solo.java"],
    );
    assert_eq!(files, vec!["root/A.java", "root/B.java", "Solo.java"]);
}

#[test]
fn names_sort_by_bytes() {
    let mut tree = FakeDirs::new();
    tree.insert("d", vec![("b", EntryKind::File), ("B", EntryKind::File), ("a", EntryKind::File), ("ab", EntryKind::File)]);
    let files = run(vec![ScanTarget::Directory("d".into())], &tree, &[]);
    assert_eq!(files, vec!["d/B", "d/a", "d/ab", "d/b"]);
}

#[test]
fn excluded_paths_are_filtered_by_component_prefix() {
    let excludes = vec!["/p/ignored".to_string(), "/p/src/gen".to_string()];
    assert!(is_excluded("/p/ignored/B.java", &excludes));
    assert!(is_excluded("/p//src/gen/X.java", &excludes));
    assert!(!is_excluded("/p/ignored-not/B.java", &excludes));
    assert!(!is_excluded("/p/src/A.java", &excludes));
    let files = vec![
        FileEntry::new("/p/src/A.java".into()),
        FileEntry::new("/p/ignored/B.java".into()),
        FileEntry::new("/p/src/gen/C.java".into()),
        FileEntry::new("/p/src/D.java".into()),
    ];
    let kept: Vec<String> = without_excluded(files, &excludes).iter().map(|f| f.path().to_string()).collect();
    assert_eq!(kept, vec!["/p/src/A.java", "/p/src/D.java"]);
}
