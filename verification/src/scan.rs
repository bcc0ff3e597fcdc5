//! Scan results: counters, per-file issues and findings, and how per-file
//! results add up to the result of a scan.

use vstd::prelude::*;
use vstd::string::*;
use crate::finding::{Finding, Findings};
use crate::language::{language_of_path, Language};
use crate::syntax::{grammar_supported, has_nul, parse_has_error, parsed_root, ParserRegistry, SyntaxNode, SyntaxTree};
use crate::semantic::{copy_tree, positions_fit, positions_fit_exec, same_node};
use crate::code_graph::{CodeGraph, IndexedFile};
use crate::pack::{in_packs, kept, pattern_findings, CompiledRule, PackRegistry};
use crate::text::{decimal, push_decimal, push_str, sbytes, string_bytes};

verus! {

/// Why a file could not be fully analyzed.
#[derive(Debug, Clone, Copy, PartialEq, Eq, Structural)]
pub enum FileIssueKind {
    Read,
    Parse,
}

/// A file that could not be fully analyzed.
#[derive(Debug, PartialEq, Eq)]
pub struct FileIssue {
    pub kind: FileIssueKind,
    pub path: String,
    pub message: String,
}

impl Clone for FileIssue {
    fn clone(&self) -> (r: Self)
        ensures
            r == *self,
    {
        FileIssue { kind: self.kind, path: self.path.clone(), message: self.message.clone() }
    }
}

/// The outcome of a scan.
#[derive(Debug, Default, PartialEq, Eq)]
pub struct ScanResult {
    pub discovered_files: usize,
    pub scanned_files: usize,
    pub skipped_files: usize,
    pub issues: Vec<FileIssue>,
    pub findings: Findings,
    pub rule_count: usize,
    pub pack_names: Vec<String>,
}

impl ScanResult {
    /// An empty result over `discovered_files` files.
    pub fn new(discovered_files: usize) -> (r: ScanResult)
        ensures
            r.discovered_files == discovered_files,
            r.scanned_files == 0,
            r.skipped_files == 0,
            r.issues@.len() == 0,
            r.findings.view().len() == 0,
            r.rule_count == 0,
            r.pack_names@.len() == 0,
    {
        ScanResult {
            discovered_files,
            scanned_files: 0,
            skipped_files: 0,
            issues: Vec::new(),
            findings: Findings::new(),
            rule_count: 0,
            pack_names: Vec::new(),
        }
    }

    /// Records that a file could not be fully analyzed.
    pub fn push_issue(&mut self, kind: FileIssueKind, path: String, message: String)
        ensures
            final(self).issues@ == old(self).issues@.push(FileIssue { kind, path, message }),
            final(self).findings == old(self).findings,
            final(self).discovered_files == old(self).discovered_files,
            final(self).scanned_files == old(self).scanned_files,
            final(self).skipped_files == old(self).skipped_files,
            final(self).rule_count == old(self).rule_count,
            final(self).pack_names == old(self).pack_names,
    {
        self.issues.push(FileIssue { kind, path, message });
    }

    /// A scan is degraded when any file could not be fully analyzed:
    /// incomplete results are never presented as authoritative.
    pub fn degraded(&self) -> (r: bool)
        ensures
            r == (self.issues@.len() > 0),
    {
        self.issues.len() > 0
    }

    /// Adds the result of one file to the result of the scan: counters add
    /// up, issues and findings are appended in order.
    pub fn absorb(&mut self, file: &ScanResult)
        requires
            old(self).scanned_files + file.scanned_files <= usize::MAX,
            old(self).skipped_files + file.skipped_files <= usize::MAX,
        ensures
            final(self).scanned_files == old(self).scanned_files + file.scanned_files,
            final(self).skipped_files == old(self).skipped_files + file.skipped_files,
            final(self).issues@ == old(self).issues@ + file.issues@,
            final(self).findings.view() == old(self).findings.view() + file.findings.view(),
            final(self).discovered_files == old(self).discovered_files,
            final(self).rule_count == old(self).rule_count,
            final(self).pack_names == old(self).pack_names,
    {
        let ghost issues0 = self.issues@;
        let mut i: usize = 0;
        while i < file.issues.len()
            invariant
                i <= file.issues@.len(),
                issues0 == old(self).issues@,
                self.findings == old(self).findings,
                self.scanned_files == old(self).scanned_files,
                self.skipped_files == old(self).skipped_files,
                self.discovered_files == old(self).discovered_files,
                self.rule_count == old(self).rule_count,
                self.pack_names == old(self).pack_names,
                self.issues@ == issues0 + file.issues@.subrange(0, i as int),
            decreases file.issues@.len() - i,
        {
            self.issues.push(file.issues[i].clone());
            i = i + 1;
            assert(self.issues@ =~= issues0 + file.issues@.subrange(0, i as int));
        }
        assert(file.issues@.subrange(0, file.issues@.len() as int) =~= file.issues@);
        let ghost findings0 = self.findings.view();
        let fs = file.findings.as_slice();
        let mut k: usize = 0;
        while k < fs.len()
            invariant
                k <= fs@.len(),
                findings0 == old(self).findings.view(),
                self.issues@ == old(self).issues@ + file.issues@,
                self.scanned_files == old(self).scanned_files,
                self.skipped_files == old(self).skipped_files,
                self.discovered_files == old(self).discovered_files,
                self.rule_count == old(self).rule_count,
                self.pack_names == old(self).pack_names,
                fs@ == file.findings.view(),
                self.findings.view() == findings0 + fs@.subrange(0, k as int),
            decreases fs@.len() - k,
        {
            self.findings.push(fs[k].clone());
            k = k + 1;
            assert(self.findings.view() =~= findings0 + fs@.subrange(0, k as int));
        }
        assert(fs@.subrange(0, fs@.len() as int) =~= fs@);
        self.scanned_files = self.scanned_files + file.scanned_files;
        self.skipped_files = self.skipped_files + file.skipped_files;
    }
}

/// Files larger than this many bytes are not analyzed.
pub const MAX_SOURCE_BYTES: u64 = 8 * 1024 * 1024;

/// The issue of a file that is too large to analyze.
pub open spec fn oversize_message(size: u64) -> Seq<char> {
    "file exceeds 8388608 byte(s) limit ("@ + decimal(size as nat) + " bytes); skipped for safety"@
}

/// The issue of a file whose syntax tree has errors.
pub open spec fn incomplete_message() -> Seq<char> {
    "syntax tree contains errors; analysis is incomplete"@
}

/// The issue of a file whose syntax tree exceeds the supported size.
pub open spec fn too_large_tree_message() -> Seq<char> {
    "syntax tree exceeds the supported size"@
}

/// A file between its preparation (hash, cache check, parse) and the run
/// of the rules.
#[derive(Debug)]
pub struct ParsedFile {
    pub path: String,
    pub language: Language,
    pub source: Option<String>,
    pub tree: Option<SyntaxTree>,
    pub cached_findings: Vec<Finding>,
    pub cache_hit: bool,
    pub skipped: bool,
    /// The content hash, which drives both the findings cache and the
    /// match of the graph snapshot.
    pub source_hash: Option<String>,
    pub issues: Vec<(FileIssueKind, String)>,
}

impl ParsedFile {
    /// A parsed tree is one the rules can run on.
    pub open spec fn wf(&self) -> bool {
        &&& self.tree matches Some(t) ==> positions_fit(t.root)
        &&& self.source matches Some(s) ==> string_bytes(&s).len() < usize::MAX
    }

    /// A file of which nothing is known yet.
    pub fn new(path: String) -> (r: ParsedFile)
        ensures
            r.path == path,
            r.language == Language::Unknown,
            r.source is None,
            r.tree is None,
            r.cached_findings@.len() == 0,
            !r.cache_hit,
            !r.skipped,
            r.source_hash is None,
            r.issues@.len() == 0,
            r.wf(),
    {
        ParsedFile {
            path,
            language: Language::Unknown,
            source: None,
            tree: None,
            cached_findings: Vec::new(),
            cache_hit: false,
            skipped: false,
            source_hash: None,
            issues: Vec::new(),
        }
    }

    /// The resource guard: a file of more than `MAX_SOURCE_BYTES` bytes is
    /// not read; the issue says so. Returns whether the file was rejected.
    pub fn reject_oversized(&mut self, size: u64) -> (r: bool)
        ensures
            r == (size > MAX_SOURCE_BYTES),
            final(self).issues@ == (if r {
                old(self).issues@.push((FileIssueKind::Read, final(self).issues@.last().1))
            } else {
                old(self).issues@
            }),
            r ==> final(self).issues@.last().1@ == oversize_message(size),
            final(self).path == old(self).path,
            final(self).language == old(self).language,
            final(self).source == old(self).source,
            final(self).tree == old(self).tree,
            final(self).cached_findings == old(self).cached_findings,
            final(self).cache_hit == old(self).cache_hit,
            final(self).skipped == old(self).skipped,
            final(self).source_hash == old(self).source_hash,
    {
        if size > MAX_SOURCE_BYTES {
            let mut message = "file exceeds 8388608 byte(s) limit (".to_owned();
            push_decimal(&mut message, size);
            push_str(&mut message, " bytes); skipped for safety");
            self.issues.push((FileIssueKind::Read, message));
            true
        } else {
            false
        }
    }

    /// Takes the language from the path; a file with no parser for its
    /// language is skipped. Returns whether it has one.
    pub fn classify(&mut self) -> (r: bool)
        ensures
            final(self).language == language_of_path(string_bytes(&old(self).path)),
            r == (final(self).language != Language::Unknown),
            final(self).skipped == (old(self).skipped || !r),
            final(self).path == old(self).path,
            final(self).source == old(self).source,
            final(self).tree == old(self).tree,
            final(self).cached_findings == old(self).cached_findings,
            final(self).cache_hit == old(self).cache_hit,
            final(self).source_hash == old(self).source_hash,
            final(self).issues == old(self).issues,
    {
        self.language = Language::from_path(self.path.as_str());
        if self.language == Language::Unknown {
            self.skipped = true;
            false
        } else {
            true
        }
    }

    /// Records the content hash.
    pub fn record_hash(&mut self, hash: String)
        ensures
            final(self).source_hash == Some(hash),
            final(self).path == old(self).path,
            final(self).language == old(self).language,
            final(self).source == old(self).source,
            final(self).tree == old(self).tree,
            final(self).cached_findings == old(self).cached_findings,
            final(self).cache_hit == old(self).cache_hit,
            final(self).skipped == old(self).skipped,
            final(self).issues == old(self).issues,
    {
        self.source_hash = Some(hash);
    }

    /// The file is unchanged since a cached scan: its findings are reused.
    pub fn use_cached(&mut self, findings: Vec<Finding>)
        ensures
            final(self).cache_hit,
            final(self).cached_findings == findings,
            final(self).path == old(self).path,
            final(self).language == old(self).language,
            final(self).source == old(self).source,
            final(self).tree == old(self).tree,
            final(self).skipped == old(self).skipped,
            final(self).source_hash == old(self).source_hash,
            final(self).issues == old(self).issues,
    {
        self.cache_hit = true;
        self.cached_findings = findings;
    }

    /// Takes the result of reading the file: a read error is an issue; a
    /// file with no parser for its language is skipped; otherwise the source
    /// is parsed, and a parse error is an issue.
    pub fn load_source(&mut self, parsers: &ParserRegistry, read: Result<String, String>)
        requires
            parsers.well_formed(),
            old(self).wf(),
        ensures
            final(self).wf(),
            final(self).path == old(self).path,
            final(self).cached_findings == old(self).cached_findings,
            final(self).cache_hit == old(self).cache_hit,
            final(self).source_hash == old(self).source_hash,
            match read {
                Err(m) => final(self).issues@ == old(self).issues@.push((FileIssueKind::Read, m))
                    && final(self).language == old(self).language && final(self).source == old(self).source
                    && final(self).tree == old(self).tree && final(self).skipped == old(self).skipped,
                Ok(src) => {
                    let language = language_of_path(string_bytes(&old(self).path));
                    let bytes = string_bytes(&src);
                    if language == Language::Unknown {
                        final(self).skipped && final(self).issues == old(self).issues && final(self).language
                            == old(self).language && final(self).source == old(self).source && final(self).tree
                            == old(self).tree
                    } else {
                        &&& final(self).skipped == old(self).skipped
                        &&& has_nul(bytes) ==> parse_issue(*old(self), *final(self)) && final(self).issues@.last().1@
                            == "invalid source: source contains NUL byte"@
                        &&& !has_nul(bytes) && !grammar_supported(language) ==> parse_issue(*old(self), *final(self))
                        &&& !has_nul(bytes) && grammar_supported(language) && bytes.len() < usize::MAX && (forall|n: SyntaxNode|
                            parsed_root(n, language, src@) ==> #[trigger] positions_fit(n)) ==> loaded(
                            *old(self),
                            *final(self),
                            language,
                            src,
                        )
                        &&& !has_nul(bytes) && grammar_supported(language) ==> loaded(*old(self), *final(self), language, src)
                            || (parse_issue(*old(self), *final(self)) && final(self).issues@.last().1@
                            == "syntax tree exceeds the supported size"@ && (bytes.len() == usize::MAX || exists|n: SyntaxNode|
                            parsed_root(n, language, src@) && !#[trigger] positions_fit(n)))
                    }
                },
            },
    {
        let source = match read {
            Ok(source) => source,
            Err(message) => {
                self.issues.push((FileIssueKind::Read, message));
                return;
            },
        };
        let language = Language::from_path(self.path.as_str());
        let parser = match parsers.parser_for(language) {
            Some(p) => p,
            None => {
                self.skipped = true;
                return;
            },
        };
        let text = source.as_str();
        proof {
            assert(crate::text::sbytes(text) == string_bytes(&source));
        }
        let tree = match parser.parse(text) {
            Ok(tree) => tree,
            Err(error) => {
                let ghost before = self.issues@;
                let message = error.to_string();
                proof {
                    reveal_strlit("invalid source: ");
                    reveal_strlit("source contains NUL byte");
                    reveal_strlit("invalid source: source contains NUL byte");
                }
                self.issues.push((FileIssueKind::Parse, message));
                assert(self.issues@.subrange(0, before.len() as int) =~= before);
                return;
            },
        };
        if !positions_fit_exec(&tree.root) || source.as_str().as_bytes().len() == usize::MAX {
            let ghost before = self.issues@;
            self.issues.push((FileIssueKind::Parse, "syntax tree exceeds the supported size".to_owned()));
            assert(self.issues@.subrange(0, before.len() as int) =~= before);
            return;
        }
        self.language = language;
        self.source = Some(source);
        self.tree = Some(tree);
    }

    /// The file as a unit of the code graph, when it was parsed.
    pub fn indexed(&self) -> (r: Option<IndexedFile>)
        requires
            self.wf(),
        ensures
            match r {
                Some(f) => self.tree matches Some(t) && self.source matches Some(s) && f.path == self.path
                    && f.language == self.language && f.source == s && same_node(f.tree.root, t.root)
                    && f.tree.language == t.language && f.tree.has_error == t.has_error && positions_fit(
                    f.tree.root,
                ),
                None => self.tree is None || self.source is None,
            },
    {
        match (&self.tree, &self.source) {
            (Some(tree), Some(source)) => Some(
                IndexedFile {
                    path: self.path.clone(),
                    language: self.language,
                    tree: copy_tree(tree),
                    source: source.clone(),
                },
            ),
            _ => None,
        }
    }
}

/// Loading added one parse issue and left the file's language, source and
/// tree as they were.
pub open spec fn parse_issue(before: ParsedFile, after: ParsedFile) -> bool {
    &&& after.issues@.len() == before.issues@.len() + 1
    &&& after.issues@.subrange(0, before.issues@.len() as int) == before.issues@
    &&& after.issues@.last().0 == FileIssueKind::Parse
    &&& after.language == before.language && after.source == before.source && after.tree == before.tree
}

/// Loading kept the source and its parsed tree, with no new issue.
pub open spec fn loaded(before: ParsedFile, after: ParsedFile, language: Language, src: String) -> bool {
    &&& after.issues == before.issues
    &&& after.language == language
    &&& after.source == Some(src)
    &&& after.tree matches Some(t) && t.language == language && parsed_root(t.root, language, src@) && t.has_error
        == parse_has_error(language, src@)
}

/// A finding comes from rule `c`: it carries the rule's id (or the id of
/// the rule's query error) and severity.
pub open spec fn from_rule(f: Finding, c: CompiledRule) -> bool {
    (f.rule_id@ == c.definition().id@ || f.rule_id@ == c.definition().id@ + ":query-error"@) && f.severity
        == c.definition().severity
}

/// A finding comes from a rule of the packs for `language`.
pub open spec fn comes_from(f: Finding, packs: Seq<(crate::pack::PackMeta, Vec<CompiledRule>)>, language: Language) -> bool {
    exists|c: CompiledRule|
        #![trigger from_rule(f, c)]
        in_packs(c, packs) && c.definition().languages@.contains(language) && from_rule(f, c)
}

/// The issues a file brings to its result, in order.
pub open spec fn file_issues(path: String, issues: Seq<(FileIssueKind, String)>) -> Seq<FileIssue> {
    issues.map_values(|i: (FileIssueKind, String)| FileIssue { kind: i.0, path, message: i.1 })
}

fn has_language(languages: &[Language], language: Language) -> (r: bool)
    ensures
        r == languages@.contains(language),
{
    let mut i: usize = 0;
    while i < languages.len()
        invariant
            i <= languages@.len(),
            forall|k: int| 0 <= k < i ==> languages@[k] != language,
        decreases languages@.len() - i,
    {
        if languages[i] == language {
            return true;
        }
        i = i + 1;
    }
    false
}

/// The findings of a list of per-rule runs, one run after another.
pub open spec fn flatten(parts: Seq<Seq<Finding>>) -> Seq<Finding>
    decreases parts.len(),
{
    if parts.len() == 0 {
        Seq::empty()
    } else {
        flatten(parts.drop_last()) + parts.last()
    }
}

/// What a pattern rule reports on the text `text`.
pub open spec fn pattern_run_text(rule: CompiledRule, r: Seq<Finding>, text: Seq<char>, path: Seq<char>) -> bool {
    match rule.run_pattern() {
        None => r.len() == 0,
        Some(p) => pattern_findings(
            r,
            rule.definition(),
            vstd::utf8::encode_utf8(text),
            path,
            kept(
                crate::pack::regex_spans(p, text),
                crate::pack::exclusion_flags(rule.exclude_pattern(), vstd::utf8::encode_utf8(text), crate::pack::regex_spans(p, text)),
            ),
        ),
    }
}

/// What one rule reports on a parsed file: a taint rule only findings of
/// its own id and severity; a query rule exactly its query's findings (or
/// its query error); a pattern rule exactly its pattern's findings.
pub open spec fn rule_output(
    rule: CompiledRule,
    tree: SyntaxTree,
    text: Seq<char>,
    path: Seq<char>,
    graph: Option<CodeGraph>,
    fs: Seq<Finding>,
) -> bool {
    &&& rule.definition().taint is Some ==> forall|i: int|
        0 <= i < fs.len() ==> (#[trigger] fs[i]).rule_id@ == rule.definition().id@ && fs[i].severity
            == rule.definition().severity
    &&& rule.definition().taint matches Some(t) ==> crate::pack::taint_rule_result(rule.definition(), t, tree, text, path, graph, fs)
    &&& rule.definition().taint is None ==> (rule.definition().query matches Some(q)
        ==> crate::pack::query_rule_result(rule.definition(), q, tree, text, path, fs))
    &&& rule.definition().taint is None && rule.definition().query is None ==> pattern_run_text(rule, fs, text, path)
}

/// One rule's part of a file's findings: what it reports when it is for
/// the file's language, nothing otherwise.
pub open spec fn rule_part(
    rule: CompiledRule,
    tree: SyntaxTree,
    text: Seq<char>,
    path: Seq<char>,
    language: Language,
    graph: Option<CodeGraph>,
    fs: Seq<Finding>,
) -> bool {
    if rule.definition().languages@.contains(language) {
        rule_output(rule, tree, text, path, graph, fs)
    } else {
        fs.len() == 0
    }
}

/// A file's findings are the runs of every rule of every pack, in pack and
/// rule order, one after another.
pub open spec fn rules_ran(
    packs: Seq<(crate::pack::PackMeta, Vec<CompiledRule>)>,
    tree: SyntaxTree,
    text: Seq<char>,
    path: Seq<char>,
    language: Language,
    graph: Option<CodeGraph>,
    fs: Seq<Finding>,
) -> bool {
    exists|parts: Seq<Seq<Finding>>|
        #[trigger] flatten(parts) == fs && parts.len() == crate::pack::all_rules(packs).len() && forall|k: int|
            0 <= k < parts.len() ==> rule_part(crate::pack::all_rules(packs)[k], tree, text, path, language, graph, #[trigger] parts[k])
}

/// Runs the rules on one prepared file. A cached file replays its stored
/// findings; a skipped file only counts as skipped; otherwise the file's
/// issues are reported and, when it was parsed, every rule for its
/// language runs on it (with the code graph for callees in other files),
/// and a tree with errors adds the issue that the analysis is incomplete.
/// Also gives back the findings to store in the cache.
pub fn scan_parsed(packs: &PackRegistry, graph: &CodeGraph, file: &ParsedFile) -> (r: (ScanResult, Vec<Finding>))
    requires
        graph.wf(),
        file.wf(),
        packs.queries_well_formed(),
        !file.cache_hit && !file.skipped ==> (file.tree matches Some(t) ==> (file.source matches Some(s)
            ==> crate::pack::values_suffice_for(packs.packs@, t, s@, file.language))),
    ensures
        r.0.discovered_files == 1,
        r.0.rule_count == 0,
        r.0.pack_names@.len() == 0,
        file.cache_hit ==> r.0.scanned_files == 1 && r.0.skipped_files == 0 && r.0.issues@.len() == 0
            && r.0.findings.view() == file.cached_findings@ && r.1@.len() == 0,
        !file.cache_hit && file.skipped ==> r.0.scanned_files == 0 && r.0.skipped_files == 1 && r.0.issues@.len()
            == 0 && r.0.findings.view().len() == 0 && r.1@.len() == 0,
        !file.cache_hit && !file.skipped ==> {
            let parsed = file.tree is Some && file.source is Some;
            &&& r.0.skipped_files == 0
            &&& r.0.scanned_files == (if parsed { 1usize } else { 0 })
            &&& r.0.issues@ == file_issues(file.path, file.issues@) + (if parsed && file.tree->Some_0.has_error {
                seq![FileIssue { kind: FileIssueKind::Parse, path: file.path, message: r.0.issues@.last().message }]
            } else {
                Seq::empty()
            })
            &&& (parsed && file.tree->Some_0.has_error) ==> r.0.issues@.last().message@ == incomplete_message()
            &&& r.0.findings.view() == r.1@
            &&& !parsed ==> r.1@.len() == 0
            &&& forall|i: int| 0 <= i < r.1@.len() ==> comes_from(#[trigger] r.1@[i], packs.packs@, file.language)
            &&& parsed ==> rules_ran(
                packs.packs@,
                file.tree->Some_0,
                file.source->Some_0@,
                file.path@,
                file.language,
                Some(*graph),
                r.1@,
            )
        },
{
    let mut result = ScanResult::new(1);
    let mut scanned: Vec<Finding> = Vec::new();
    if file.cache_hit {
        result.scanned_files = 1;
        let mut i: usize = 0;
        while i < file.cached_findings.len()
            invariant
                i <= file.cached_findings@.len(),
                result.discovered_files == 1 && result.scanned_files == 1 && result.skipped_files == 0,
                result.issues@.len() == 0 && result.rule_count == 0 && result.pack_names@.len() == 0,
                result.findings.view() == file.cached_findings@.subrange(0, i as int),
            decreases file.cached_findings@.len() - i,
        {
            result.findings.push(file.cached_findings[i].clone());
            i = i + 1;
            assert(result.findings.view() =~= file.cached_findings@.subrange(0, i as int));
        }
        assert(file.cached_findings@.subrange(0, file.cached_findings@.len() as int) =~= file.cached_findings@);
        return (result, scanned);
    }
    if file.skipped {
        result.skipped_files = 1;
        return (result, scanned);
    }
    let mut k: usize = 0;
    while k < file.issues.len()
        invariant
            k <= file.issues@.len(),
            result.discovered_files == 1 && result.scanned_files == 0 && result.skipped_files == 0,
            result.rule_count == 0 && result.pack_names@.len() == 0 && result.findings.view().len() == 0,
            result.issues@ == file_issues(file.path, file.issues@).subrange(0, k as int),
        decreases file.issues@.len() - k,
    {
        let (kind, message) = &file.issues[k];
        let ghost before = result.issues@;
        result.push_issue(*kind, file.path.clone(), message.clone());
        proof {
            assert(result.issues@ =~= before.push(file_issues(file.path, file.issues@)[k as int]));
        }
        k = k + 1;
        assert(result.issues@ =~= file_issues(file.path, file.issues@).subrange(0, k as int));
    }
    assert(file_issues(file.path, file.issues@).subrange(0, file.issues@.len() as int) =~= file_issues(
        file.path,
        file.issues@,
    ));
    let (tree, source) = match (&file.tree, &file.source) {
        (Some(t), Some(s)) => (t, s),
        _ => {
            assert(result.issues@ =~= file_issues(file.path, file.issues@) + Seq::<FileIssue>::empty());
            return (result, scanned);
        },
    };
    result.scanned_files = 1;
    let ghost base = result.issues@;
    if tree.has_error() {
        result.push_issue(FileIssueKind::Parse, file.path.clone(), "syntax tree contains errors; analysis is incomplete".to_owned());
    }
    let rules = packs.iter();
    let ghost r0 = result;
    let ghost all = crate::pack::all_rules(packs.packs@);
    let ghost mut parts: Seq<Seq<Finding>> = Seq::empty();
    let mut j: usize = 0;
    while j < rules.len()
        invariant
            j <= rules@.len(),
            result == r0,
            all == crate::pack::all_rules(packs.packs@),
            rules@.map_values(|c: &CompiledRule| *c) == all,
            parts.len() == j,
            flatten(parts) == scanned@,
            forall|k: int| 0 <= k < j ==> rule_part(all[k], *tree, source@, file.path@, file.language, Some(*graph), #[trigger] parts[k]),
            graph.wf(),
            file.wf(),
            packs.queries_well_formed(),
            crate::pack::values_suffice_for(packs.packs@, *tree, source@, file.language),
            file.tree == Some(*tree),
            file.source == Some(*source),
            forall|i: int| 0 <= i < rules@.len() ==> in_packs(*(#[trigger] rules@[i]), packs.packs@),
            forall|i: int| 0 <= i < scanned@.len() ==> comes_from(#[trigger] scanned@[i], packs.packs@, file.language),
        decreases rules@.len() - j,
    {
        let rule = rules[j];
        if has_language(rule.languages(), file.language) {
            let ghost c = *rule;
            proof {
                assert(in_packs(c, packs.packs@));
                let (pp, qq) = choose|p: int, q: int|
                    0 <= p < packs.packs@.len() && 0 <= q < packs.packs@[p].1@.len() && #[trigger] packs.packs@[p].1@[q]
                        == c;
                assert(crate::pack::rule_query_ok(packs.packs@[pp].1@[qq]));
                assert(crate::pack::all_rules(packs.packs@)[j as int] == c);
                assert(crate::pack::rule_values_suffice(c.definition(), *tree, source@));
            }
            let src = source.as_str();
            let found = rule.check_parsed_with_graph(tree, src, file.path.as_str(), Some(graph));
            proof {
                if c.definition().taint is None && c.definition().query is None && c.run_pattern() is Some {
                    let p = c.run_pattern()->Some_0;
                    let spans = crate::pack::regex_spans(p, src@);
                    let ks = kept(spans, crate::pack::exclusion_flags(c.exclude_pattern(), sbytes(src), spans));
                    assert(pattern_findings(found@, c.definition(), sbytes(src), file.path@, ks));
                    assert forall|i: int| 0 <= i < found@.len() implies from_rule(#[trigger] found@[i], c) by {
                        assert(crate::pack::pattern_finding(found@[i], c.definition(), sbytes(src), file.path@, ks[i]));
                    }
                }
                assert forall|i: int| 0 <= i < found@.len() implies from_rule(#[trigger] found@[i], c) by {}
            }
            let ghost before = scanned@;
            let mut m: usize = 0;
            while m < found.len()
                invariant
                    m <= found@.len(),
                    scanned@.len() == before.len() + m,
                    forall|i: int| 0 <= i < before.len() ==> scanned@[i] == before[i],
                    forall|i: int| 0 <= i < m ==> scanned@[before.len() + i] == found@[i],
                decreases found@.len() - m,
            {
                scanned.push(found[m].clone());
                m = m + 1;
            }
            proof {
                assert forall|i: int| 0 <= i < scanned@.len() implies comes_from(
                    #[trigger] scanned@[i],
                    packs.packs@,
                    file.language,
                ) by {
                    if i >= before.len() {
                        assert(from_rule(found@[i - before.len()], c));
                        assert(from_rule(scanned@[i], c));
                    } else {
                        assert(scanned@[i] == before[i]);
                    }
                }
                assert(scanned@ =~= before + found@);
                assert(all[j as int] == c);
                assert(src@ == source@);
                assert(sbytes(src) == vstd::utf8::encode_utf8(source@));
                assert(rule_part(all[j as int], *tree, source@, file.path@, file.language, Some(*graph), found@));
                let np = parts.push(found@);
                assert(np.drop_last() =~= parts);
                assert(flatten(np) == scanned@);
                parts = np;
            }
        } else {
            proof {
                assert(all[j as int] == *rule);
                let np = parts.push(Seq::<Finding>::empty());
                assert(np.drop_last() =~= parts);
                assert(flatten(np) =~= scanned@);
                parts = np;
            }
        }
        j = j + 1;
    }
    proof {
        assert(flatten(parts) == scanned@);
        assert(rules_ran(packs.packs@, *tree, source@, file.path@, file.language, Some(*graph), scanned@));
    }
    let mut m: usize = 0;
    assert(result.findings.view() =~= scanned@.subrange(0, 0));
    while m < scanned.len()
        invariant
            m <= scanned@.len(),
            result.discovered_files == r0.discovered_files && result.scanned_files == r0.scanned_files,
            result.skipped_files == r0.skipped_files && result.issues == r0.issues,
            result.rule_count == r0.rule_count && result.pack_names == r0.pack_names,
            result.findings.view() == scanned@.subrange(0, m as int),
        decreases scanned@.len() - m,
    {
        result.findings.push(scanned[m].clone());
        m = m + 1;
        assert(result.findings.view() =~= scanned@.subrange(0, m as int));
    }
    assert(scanned@.subrange(0, scanned@.len() as int) =~= scanned@);
    (result, scanned)
}

/// Files counted as scanned over per-file results.
pub open spec fn total_scanned(rs: Seq<ScanResult>) -> nat
    decreases rs.len(),
{
    if rs.len() == 0 {
        0
    } else {
        total_scanned(rs.drop_last()) + rs.last().scanned_files as nat
    }
}

/// Files counted as skipped over per-file results.
pub open spec fn total_skipped(rs: Seq<ScanResult>) -> nat
    decreases rs.len(),
{
    if rs.len() == 0 {
        0
    } else {
        total_skipped(rs.drop_last()) + rs.last().skipped_files as nat
    }
}

/// The issues of per-file results, in order.
pub open spec fn all_issues(rs: Seq<ScanResult>) -> Seq<FileIssue>
    decreases rs.len(),
{
    if rs.len() == 0 {
        Seq::empty()
    } else {
        all_issues(rs.drop_last()) + rs.last().issues@
    }
}

/// The findings of per-file results, in order.
pub open spec fn all_findings(rs: Seq<ScanResult>) -> Seq<Finding>
    decreases rs.len(),
{
    if rs.len() == 0 {
        Seq::empty()
    } else {
        all_findings(rs.drop_last()) + rs.last().findings.view()
    }
}

/// The result of a scan from the results of its files: `discovered_files`
/// files were found, the loaded packs and their rule count are recorded,
/// and the counters, issues and findings of the files add up in order.
pub fn combine_results(discovered_files: usize, packs: &PackRegistry, per_file: &[ScanResult]) -> (r: ScanResult)
    requires
        forall|i: int| 0 <= i < per_file@.len() ==> (#[trigger] per_file@[i]).scanned_files <= 1
            && per_file@[i].skipped_files <= 1,
        crate::pack::rule_entries(packs.packs@).len() <= usize::MAX,
    ensures
        r.discovered_files == discovered_files,
        r.rule_count == crate::pack::rule_entries(packs.packs@).len(),
        r.pack_names@.map_values(|s: String| s@) == packs.packs@.map_values(
            |p: (crate::pack::PackMeta, Vec<CompiledRule>)| p.0.name@,
        ),
        r.scanned_files == total_scanned(per_file@),
        r.skipped_files == total_skipped(per_file@),
        r.issues@ == all_issues(per_file@),
        r.findings.view() == all_findings(per_file@),
{
    let mut result = ScanResult::new(discovered_files);
    result.rule_count = packs.count();
    result.pack_names = packs.pack_names();
    let mut i: usize = 0;
    proof {
        assert(per_file@.subrange(0, 0) =~= Seq::<ScanResult>::empty());
        assert(result.issues@ =~= all_issues(Seq::<ScanResult>::empty()));
        assert(result.findings.view() =~= all_findings(Seq::<ScanResult>::empty()));
    }
    while i < per_file.len()
        invariant
            i <= per_file@.len(),
            forall|k: int| 0 <= k < per_file@.len() ==> (#[trigger] per_file@[k]).scanned_files <= 1
                && per_file@[k].skipped_files <= 1,
            result.discovered_files == discovered_files,
            result.rule_count == crate::pack::rule_entries(packs.packs@).len(),
            result.pack_names@.map_values(|s: String| s@) == packs.packs@.map_values(
                |p: (crate::pack::PackMeta, Vec<CompiledRule>)| p.0.name@,
            ),
            result.scanned_files == total_scanned(per_file@.subrange(0, i as int)),
            result.skipped_files == total_skipped(per_file@.subrange(0, i as int)),
            total_scanned(per_file@.subrange(0, i as int)) <= i,
            total_skipped(per_file@.subrange(0, i as int)) <= i,
            result.issues@ == all_issues(per_file@.subrange(0, i as int)),
            result.findings.view() == all_findings(per_file@.subrange(0, i as int)),
        decreases per_file@.len() - i,
    {
        proof {
            let sub = per_file@.subrange(0, i + 1);
            assert(sub.drop_last() =~= per_file@.subrange(0, i as int));
            assert(sub.last() == per_file@[i as int]);
        }
        result.absorb(&per_file[i]);
        i = i + 1;
    }
    assert(per_file@.subrange(0, per_file@.len() as int) =~= per_file@);
    result
}

/// Why a scan could not run at all.
#[derive(Debug, PartialEq, Eq)]
pub enum ScanError {
    Scope(crate::scope::ScopeError),
    Discovery(crate::discovery::DiscoveryError),
    ReadSource { path: String, source: String },
    Parse { path: String, source: crate::syntax::ParseError },
    Pack(crate::pack::PackError),
}

pub open spec fn scope_message(e: crate::scope::ScopeError) -> Seq<char> {
    match e {
        crate::scope::ScopeError::PathNotFound(p) => "path not found: "@ + p@,
        crate::scope::ScopeError::MetadataUnavailable { path } => "unable to determine path type: "@ + path@,
    }
}

impl ScanError {
    /// The error message.
    pub fn to_string(&self) -> (r: String)
        ensures
            r@ == (match self {
                ScanError::Scope(e) => scope_message(*e),
                ScanError::Discovery(e) => match e {
                    crate::discovery::DiscoveryError::ReadDirectory { path, source } => "unable to read directory '"@
                        + path@ + "': "@ + source@,
                    crate::discovery::DiscoveryError::ReadMetadata { path, source } =>
                        "unable to read metadata for '"@ + path@ + "': "@ + source@,
                },
                ScanError::ReadSource { path, source } => "unable to read source '"@ + path@ + "': "@ + source@,
                ScanError::Parse { path, source } => "unable to parse '"@ + path@ + "': "@ + match source {
                    crate::syntax::ParseError::UnsupportedLanguage(l) => "unsupported language: "@
                        + crate::syntax::language_name(*l),
                    crate::syntax::ParseError::InvalidSource(m) => "invalid source: "@ + m@,
                },
                ScanError::Pack(e) => "rule pack error: "@ + match e {
                    crate::pack::PackError::Read { path, source } => "unable to read pack '"@ + path@ + "': "@
                        + source@,
                    crate::pack::PackError::Parse { path, source } => "unable to parse pack '"@ + path@ + "': "@
                        + source@,
                    crate::pack::PackError::Validate { message } => "invalid pack: "@ + message@,
                    crate::pack::PackError::DuplicateId { id, first, second } => "rule id '"@ + id@
                        + "' defined by both '"@ + first@ + "' and '"@ + second@ + "'"@,
                },
            }),
    {
        match self {
            ScanError::Scope(e) => {
                let (head, p) = match e {
                    crate::scope::ScopeError::PathNotFound(p) => ("path not found: ", p),
                    crate::scope::ScopeError::MetadataUnavailable { path } => ("unable to determine path type: ", path),
                };
                let mut s = head.to_owned();
                push_str(&mut s, p.as_str());
                s
            },
            ScanError::Discovery(e) => e.to_string(),
            ScanError::ReadSource { path, source } => {
                let mut s = "unable to read source '".to_owned();
                push_str(&mut s, path.as_str());
                push_str(&mut s, "': ");
                push_str(&mut s, source.as_str());
                s
            },
            ScanError::Parse { path, source } => {
                let mut s = "unable to parse '".to_owned();
                push_str(&mut s, path.as_str());
                push_str(&mut s, "': ");
                let m = source.to_string();
                push_str(&mut s, m.as_str());
                s
            },
            ScanError::Pack(e) => {
                let mut s = "rule pack error: ".to_owned();
                let m = e.to_string();
                push_str(&mut s, m.as_str());
                s
            },
        }
    }
}

} // verus!
