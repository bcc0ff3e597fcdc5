//! The architecture index of a scan (symbols and call edges) as it is kept
//! between scans, and the check that a kept index still describes the files
//! being scanned.

use vstd::prelude::*;
use vstd::string::*;
use vstd::utf8::encode_utf8;
use crate::baseline::distinct;
use crate::language::Language;
use crate::text::{chars_of, push_str, sbytes, str_eq, string_bytes, string_from_chars, trim_chars, trim_range};
use crate::semantic::{field_child, field_child_exec, kind_child, kind_child_exec, lemma_children_fit, node_text, node_text_exec, opt_node_text, positions_fit};
use crate::syntax::{SyntaxNode, SyntaxTree};
use crate::taint_walk::{chain_contains, is_call, is_method_like, lemma_remaining_push, spec_call, spec_method_like};
use crate::var_set::names_of;
use crate::paths::{components, file_stem_range, extension_range, join_path, same_path, path_components, spec_extension, spec_file_stem, spec_join};
use crate::config::{parent_path, path_parent};
use crate::taint::opt_text;
use crate::taint_engine::spec_parse_call;

verus! {

/// Kinds of callable symbol.
#[derive(Debug, Clone, Copy, PartialEq, Eq, Structural)]
pub enum SymbolKind {
    Function,
    Method,
    Constructor,
}

#[derive(Debug)]
pub struct GraphSymbol {
    pub name: String,
    /// `Class.method` when an enclosing class is visible; `method` otherwise.
    pub qualified_name: String,
    pub kind: SymbolKind,
    pub file: String,
    /// Index into the graph's files.
    pub file_index: usize,
    pub line: usize,
    /// Byte offset of the declaration node.
    pub start_byte: usize,
    pub language: Language,
}

#[derive(Debug)]
pub struct CallEdge {
    /// Symbol index of the caller.
    pub caller: usize,
    /// The callee as written at the call site.
    pub callee_text: String,
    /// Symbol index of the resolved callee, when a definition was found.
    pub callee: Option<usize>,
    pub line: usize,
}

#[derive(Debug)]
pub struct ClassInfo {
    pub file_index: usize,
    pub name: String,
    pub extends: Option<String>,
    pub implements: Vec<String>,
}

/// Identity of one scanned file inside a snapshot.
#[derive(Debug)]
pub struct GraphFileMeta {
    pub path: String,
    pub hash: String,
}

/// A persisted code graph.
#[derive(Debug)]
pub struct GraphSnapshot {
    /// Cache namespace; mismatches reject the snapshot at load time.
    pub schema: String,
    /// Every scanned file's path and content hash, in discovery order.
    pub files: Vec<GraphFileMeta>,
    pub symbols: Vec<GraphSymbol>,
    pub edges: Vec<CallEdge>,
    pub var_types: Vec<(usize, usize, String, String)>,
    pub hierarchy: Vec<ClassInfo>,
    pub imports: Vec<(usize, String, String, String)>,
    pub namespaces: Vec<(usize, String, String)>,
}

/// The (path, hash) pairs a snapshot records.
pub open spec fn recorded(files: Seq<GraphFileMeta>) -> Seq<(Seq<char>, Seq<char>)> {
    files.map_values(|f: GraphFileMeta| (f.path@, f.hash@))
}

/// The hash recorded for `path` (the last record of it wins).
pub open spec fn lookup(entries: Seq<(Seq<char>, Seq<char>)>, path: Seq<char>) -> Option<Seq<char>>
    decreases entries.len(),
{
    if entries.len() == 0 {
        None
    } else if entries.last().0 == path {
        Some(entries.last().1)
    } else {
        lookup(entries.drop_last(), path)
    }
}

/// How many of the scanned files have a hash.
pub open spec fn hashed_count(files: Seq<(Seq<char>, Option<Seq<char>>)>) -> nat
    decreases files.len(),
{
    if files.len() == 0 {
        0
    } else {
        hashed_count(files.drop_last()) + (if files.last().1 is Some { 1nat } else { 0 })
    }
}

pub open spec fn scanned_view(files: Seq<(String, Option<String>)>) -> Seq<(Seq<char>, Option<Seq<char>>)> {
    files.map_values(
        |f: (String, Option<String>)|
            (
                f.0@,
                match f.1 {
                    Some(h) => Some(h@),
                    None => None,
                },
            ),
    )
}

/// The snapshot describes exactly the scanned files: every file with a hash
/// has that hash recorded, and the snapshot records no other path.
pub open spec fn spec_matches(entries: Seq<(Seq<char>, Seq<char>)>, files: Seq<(Seq<char>, Option<Seq<char>>)>) -> bool {
    &&& forall|i: int|
        0 <= i < files.len() ==> ((#[trigger] files[i]).1 matches Some(h) ==> lookup(entries, files[i].0) == Some(h))
    &&& hashed_count(files) == distinct(entries.map_values(|e: (Seq<char>, Seq<char>)| e.0)).len()
}

fn lookup_exec<'a>(files: &'a Vec<GraphFileMeta>, path: &String) -> (r: Option<&'a String>)
    ensures
        match r {
            Some(h) => lookup(recorded(files@), path@) == Some(h@),
            None => lookup(recorded(files@), path@) is None,
        },
{
    let ghost es = recorded(files@);
    let mut i = files.len();
    proof {
        assert(es.subrange(0, i as int) =~= es);
    }
    while i > 0
        invariant
            i <= files@.len(),
            es == recorded(files@),
            lookup(es, path@) == lookup(es.subrange(0, i as int), path@),
        decreases i,
    {
        proof {
            let sub = es.subrange(0, i as int);
            assert(sub.drop_last() =~= es.subrange(0, i - 1));
            assert(sub.last() == (files@[i - 1].path@, files@[i - 1].hash@));
        }
        if files[i - 1].path == *path {
            return Some(&files[i - 1].hash);
        }
        i = i - 1;
    }
    proof {
        assert(es.subrange(0, 0) =~= Seq::<(Seq<char>, Seq<char>)>::empty());
    }
    None
}

fn distinct_path_count(files: &Vec<GraphFileMeta>) -> (r: usize)
    ensures
        r == distinct(recorded(files@).map_values(|e: (Seq<char>, Seq<char>)| e.0)).len(),
{
    let ghost ps = recorded(files@).map_values(|e: (Seq<char>, Seq<char>)| e.0);
    let mut seen: Vec<&String> = Vec::new();
    let mut i: usize = 0;
    proof {
        assert(ps.subrange(0, 0) =~= Seq::<Seq<char>>::empty());
        assert(seen@.map_values(|s: &String| s@) =~= Seq::<Seq<char>>::empty());
    }
    while i < files.len()
        invariant
            i <= files@.len(),
            ps == recorded(files@).map_values(|e: (Seq<char>, Seq<char>)| e.0),
            seen@.map_values(|s: &String| s@) == distinct(ps.subrange(0, i as int)),
            seen@.len() <= i,
        decreases files@.len() - i,
    {
        let p = &files[i].path;
        let mut found = false;
        let mut k: usize = 0;
        while k < seen.len()
            invariant
                k <= seen@.len(),
                found == exists|m: int| 0 <= m < k && seen@[m]@ == p@,
            decreases seen@.len() - k,
        {
            if *seen[k] == *p {
                found = true;
            }
            k = k + 1;
        }
        proof {
            let sub = ps.subrange(0, i + 1);
            assert(sub.drop_last() =~= ps.subrange(0, i as int));
            assert(sub.last() == p@);
            let sv = seen@.map_values(|s: &String| s@);
            if found {
                let m = choose|m: int| 0 <= m < seen@.len() && seen@[m]@ == p@;
                assert(sv[m] == p@);
            } else {
                assert forall|m: int| 0 <= m < sv.len() implies sv[m] != p@ by {
                    assert(sv[m] == seen@[m]@);
                }
            }
        }
        if !found {
            let ghost prev = seen@;
            seen.push(p);
            assert(seen@.map_values(|s: &String| s@) =~= prev.map_values(|s: &String| s@).push(p@));
        }
        i = i + 1;
    }
    assert(ps.subrange(0, files@.len() as int) =~= ps);
    seen.len()
}

impl GraphSnapshot {
    /// Whether every scanned file that has a hash (path, hash) matches this
    /// snapshot, and the snapshot has no extra files. Files without a hash
    /// (read errors, oversized files) do not constrain the match.
    pub fn matches(&self, files: &[(String, Option<String>)]) -> (r: bool)
        ensures
            r == spec_matches(recorded(self.files@), scanned_view(files@)),
    {
        let ghost fv = scanned_view(files@);
        let mut matched: usize = 0;
        let mut i: usize = 0;
        while i < files.len()
            invariant
                i <= files@.len(),
                fv == scanned_view(files@),
                matched == hashed_count(fv.subrange(0, i as int)),
                matched <= i,
                forall|k: int|
                    0 <= k < i ==> ((#[trigger] fv[k]).1 matches Some(h) ==> lookup(recorded(self.files@), fv[k].0) == Some(h)),
            decreases files@.len() - i,
        {
            let (path, hash) = (&files[i].0, &files[i].1);
            proof {
                let sub = fv.subrange(0, i + 1);
                assert(sub.drop_last() =~= fv.subrange(0, i as int));
                assert(sub.last() == fv[i as int]);
            }
            match hash {
                None => {},
                Some(h) => {
                    match lookup_exec(&self.files, path) {
                        Some(known) => {
                            if *known == *h {
                                matched = matched + 1;
                            } else {
                                assert(!spec_matches(recorded(self.files@), fv)) by {
                                    assert(fv[i as int].1 == Some(h@));
                                }
                                return false;
                            }
                        },
                        None => {
                            assert(!spec_matches(recorded(self.files@), fv)) by {
                                assert(fv[i as int].1 == Some(h@));
                            }
                            return false;
                        },
                    }
                },
            }
            i = i + 1;
        }
        assert(fv.subrange(0, files@.len() as int) =~= fv);
        matched == distinct_path_count(&self.files)
    }
}

/// Two symbols carry the same values.
pub open spec fn same_symbol(a: GraphSymbol, b: GraphSymbol) -> bool {
    &&& a.name@ == b.name@
    &&& a.qualified_name@ == b.qualified_name@
    &&& a.kind == b.kind
    &&& a.file@ == b.file@
    &&& a.file_index == b.file_index
    &&& a.line == b.line
    &&& a.start_byte == b.start_byte
    &&& a.language == b.language
}

/// Two edges carry the same values.
pub open spec fn same_edge(a: CallEdge, b: CallEdge) -> bool {
    a.caller == b.caller && a.callee_text@ == b.callee_text@ && a.callee == b.callee && a.line == b.line
}

/// Two class facts carry the same values.
pub open spec fn same_class(a: ClassInfo, b: ClassInfo) -> bool {
    &&& a.file_index == b.file_index
    &&& a.name@ == b.name@
    &&& opt_text(a.extends) == opt_text(b.extends)
    &&& names_of(a.implements@) == names_of(b.implements@)
}

pub open spec fn same_symbols(a: Seq<GraphSymbol>, b: Seq<GraphSymbol>) -> bool {
    a.len() == b.len() && forall|i: int| 0 <= i < a.len() ==> same_symbol(#[trigger] a[i], b[i])
}

pub open spec fn same_edges(a: Seq<CallEdge>, b: Seq<CallEdge>) -> bool {
    a.len() == b.len() && forall|i: int| 0 <= i < a.len() ==> same_edge(#[trigger] a[i], b[i])
}

pub open spec fn same_classes(a: Seq<ClassInfo>, b: Seq<ClassInfo>) -> bool {
    a.len() == b.len() && forall|i: int| 0 <= i < a.len() ==> same_class(#[trigger] a[i], b[i])
}

pub open spec fn var_types_view(v: Seq<(usize, usize, String, String)>) -> Seq<(usize, usize, Seq<char>, Seq<char>)> {
    v.map_values(|t: (usize, usize, String, String)| (t.0, t.1, t.2@, t.3@))
}

pub open spec fn imports_view(v: Seq<(usize, String, String, String)>) -> Seq<(usize, Seq<char>, Seq<char>, Seq<char>)> {
    v.map_values(|t: (usize, String, String, String)| (t.0, t.1@, t.2@, t.3@))
}

pub open spec fn namespaces_view(v: Seq<(usize, String, String)>) -> Seq<(usize, Seq<char>, Seq<char>)> {
    v.map_values(|t: (usize, String, String)| (t.0, t.1@, t.2@))
}

fn copy_string_vec(v: &Vec<String>) -> (r: Vec<String>)
    ensures
        names_of(r@) == names_of(v@),
{
    let mut out: Vec<String> = Vec::new();
    let mut k: usize = 0;
    while k < v.len()
        invariant
            k <= v@.len(),
            names_of(out@) == names_of(v@).subrange(0, k as int),
        decreases v@.len() - k,
    {
        let ghost prev = names_of(out@);
        out.push(v[k].clone());
        assert(names_of(out@) =~= prev.push(v@[k as int]@));
        k = k + 1;
        assert(names_of(out@) =~= names_of(v@).subrange(0, k as int));
    }
    assert(names_of(v@).subrange(0, v@.len() as int) =~= names_of(v@));
    out
}

fn copy_symbols(v: &Vec<GraphSymbol>) -> (r: Vec<GraphSymbol>)
    ensures
        same_symbols(r@, v@),
{
    let mut out: Vec<GraphSymbol> = Vec::new();
    let mut k: usize = 0;
    while k < v.len()
        invariant
            k <= v@.len(),
            out@.len() == k,
            forall|i: int| 0 <= i < k ==> same_symbol(#[trigger] out@[i], v@[i]),
        decreases v@.len() - k,
    {
        let s = &v[k];
        out.push(GraphSymbol {
            name: s.name.clone(),
            qualified_name: s.qualified_name.clone(),
            kind: s.kind,
            file: s.file.clone(),
            file_index: s.file_index,
            line: s.line,
            start_byte: s.start_byte,
            language: s.language,
        });
        k = k + 1;
    }
    out
}

fn copy_edges(v: &Vec<CallEdge>) -> (r: Vec<CallEdge>)
    ensures
        same_edges(r@, v@),
{
    let mut out: Vec<CallEdge> = Vec::new();
    let mut k: usize = 0;
    while k < v.len()
        invariant
            k <= v@.len(),
            out@.len() == k,
            forall|i: int| 0 <= i < k ==> same_edge(#[trigger] out@[i], v@[i]),
        decreases v@.len() - k,
    {
        let e = &v[k];
        out.push(CallEdge { caller: e.caller, callee_text: e.callee_text.clone(), callee: e.callee, line: e.line });
        k = k + 1;
    }
    out
}

fn copy_classes(v: &Vec<ClassInfo>) -> (r: Vec<ClassInfo>)
    ensures
        same_classes(r@, v@),
{
    let mut out: Vec<ClassInfo> = Vec::new();
    let mut k: usize = 0;
    while k < v.len()
        invariant
            k <= v@.len(),
            out@.len() == k,
            forall|i: int| 0 <= i < k ==> same_class(#[trigger] out@[i], v@[i]),
        decreases v@.len() - k,
    {
        let c = &v[k];
        let extends = match &c.extends {
            Some(e) => Some(e.clone()),
            None => None,
        };
        out.push(ClassInfo {
            file_index: c.file_index,
            name: c.name.clone(),
            extends,
            implements: copy_string_vec(&c.implements),
        });
        k = k + 1;
    }
    out
}

fn copy_var_types(v: &Vec<(usize, usize, String, String)>) -> (r: Vec<(usize, usize, String, String)>)
    ensures
        var_types_view(r@) == var_types_view(v@),
{
    let mut out: Vec<(usize, usize, String, String)> = Vec::new();
    let mut k: usize = 0;
    while k < v.len()
        invariant
            k <= v@.len(),
            var_types_view(out@) == var_types_view(v@).subrange(0, k as int),
        decreases v@.len() - k,
    {
        let ghost prev = var_types_view(out@);
        let t = &v[k];
        out.push((t.0, t.1, t.2.clone(), t.3.clone()));
        assert(var_types_view(out@) =~= prev.push(var_types_view(v@)[k as int]));
        k = k + 1;
        assert(var_types_view(out@) =~= var_types_view(v@).subrange(0, k as int));
    }
    assert(var_types_view(v@).subrange(0, v@.len() as int) =~= var_types_view(v@));
    out
}

fn copy_imports(v: &Vec<(usize, String, String, String)>) -> (r: Vec<(usize, String, String, String)>)
    ensures
        imports_view(r@) == imports_view(v@),
{
    let mut out: Vec<(usize, String, String, String)> = Vec::new();
    let mut k: usize = 0;
    while k < v.len()
        invariant
            k <= v@.len(),
            imports_view(out@) == imports_view(v@).subrange(0, k as int),
        decreases v@.len() - k,
    {
        let ghost prev = imports_view(out@);
        let t = &v[k];
        out.push((t.0, t.1.clone(), t.2.clone(), t.3.clone()));
        assert(imports_view(out@) =~= prev.push(imports_view(v@)[k as int]));
        k = k + 1;
        assert(imports_view(out@) =~= imports_view(v@).subrange(0, k as int));
    }
    assert(imports_view(v@).subrange(0, v@.len() as int) =~= imports_view(v@));
    out
}

fn copy_namespaces(v: &Vec<(usize, String, String)>) -> (r: Vec<(usize, String, String)>)
    ensures
        namespaces_view(r@) == namespaces_view(v@),
{
    let mut out: Vec<(usize, String, String)> = Vec::new();
    let mut k: usize = 0;
    while k < v.len()
        invariant
            k <= v@.len(),
            namespaces_view(out@) == namespaces_view(v@).subrange(0, k as int),
        decreases v@.len() - k,
    {
        let ghost prev = namespaces_view(out@);
        let t = &v[k];
        out.push((t.0, t.1.clone(), t.2.clone()));
        assert(namespaces_view(out@) =~= prev.push(namespaces_view(v@)[k as int]));
        k = k + 1;
        assert(namespaces_view(out@) =~= namespaces_view(v@).subrange(0, k as int));
    }
    assert(namespaces_view(v@).subrange(0, v@.len() as int) =~= namespaces_view(v@));
    out
}

/// A snapshot describes a usable index: every symbol lies in a recorded
/// file under that file's path, and every edge joins recorded symbols.
pub open spec fn spec_consistent(snapshot: GraphSnapshot) -> bool {
    &&& forall|i: int| 0 <= i < snapshot.symbols@.len() ==> {
        let s = #[trigger] snapshot.symbols@[i];
        s.file_index < snapshot.files@.len() && s.file@ == snapshot.files@[s.file_index as int].path@
    }
    &&& forall|i: int| 0 <= i < snapshot.edges@.len() ==> (#[trigger] snapshot.edges@[i]).caller
        < snapshot.symbols@.len() && (snapshot.edges@[i].callee matches Some(c) ==> c < snapshot.symbols@.len())
}

impl GraphSnapshot {
    /// Whether the snapshot can be restored as an index (see `spec_consistent`).
    pub fn consistent(&self) -> (r: bool)
        ensures
            r == spec_consistent(*self),
    {
        let mut i: usize = 0;
        while i < self.symbols.len()
            invariant
                i <= self.symbols@.len(),
                forall|k: int| 0 <= k < i ==> {
                    let s = #[trigger] self.symbols@[k];
                    s.file_index < self.files@.len() && s.file@ == self.files@[s.file_index as int].path@
                },
            decreases self.symbols@.len() - i,
        {
            let s = &self.symbols[i];
            if s.file_index >= self.files.len() || s.file != self.files[s.file_index].path {
                return false;
            }
            i = i + 1;
        }
        let mut j: usize = 0;
        while j < self.edges.len()
            invariant
                j <= self.edges@.len(),
                forall|k: int| 0 <= k < j ==> (#[trigger] self.edges@[k]).caller < self.symbols@.len()
                    && (self.edges@[k].callee matches Some(c) ==> c < self.symbols@.len()),
            decreases self.edges@.len() - j,
        {
            let e = &self.edges[j];
            if e.caller >= self.symbols.len() {
                return false;
            }
            match e.callee {
                Some(c) => if c >= self.symbols.len() {
                    return false;
                },
                None => {},
            }
            j = j + 1;
        }
        true
    }
}

impl CodeGraph {
    /// The index data with the scan's file identities attached; the schema
    /// is left empty for the cache to fill in.
    pub fn snapshot_with(&self, files: Vec<GraphFileMeta>) -> (r: GraphSnapshot)
        ensures
            r.schema@.len() == 0,
            r.files@ == files@,
            same_symbols(r.symbols@, self.symbols@),
            same_edges(r.edges@, self.edges@),
            var_types_view(r.var_types@) == var_types_view(self.var_types@),
            same_classes(r.hierarchy@, self.hierarchy@),
            imports_view(r.imports@) == imports_view(self.imports@),
            namespaces_view(r.namespaces@) == namespaces_view(self.namespaces@),
    {
        GraphSnapshot {
            schema: String::new(),
            files,
            symbols: copy_symbols(&self.symbols),
            edges: copy_edges(&self.edges),
            var_types: copy_var_types(&self.var_types),
            hierarchy: copy_classes(&self.hierarchy),
            imports: copy_imports(&self.imports),
            namespaces: copy_namespaces(&self.namespaces),
        }
    }

    /// Restores an index from a snapshot: symbols, edges and facts are taken
    /// as they are; each recorded file comes back with its path and the
    /// language of its extension, and without content (a placeholder tree
    /// and an empty source) until `restore_file` supplies it.
    pub fn from_snapshot(snapshot: &GraphSnapshot) -> (r: CodeGraph)
        requires
            spec_consistent(*snapshot),
        ensures
            r.wf(),
            r.files@.len() == snapshot.files@.len(),
            forall|i: int| 0 <= i < r.files@.len() ==> {
                let f = #[trigger] r.files@[i];
                &&& f.path@ == snapshot.files@[i].path@
                &&& f.language == crate::language::language_of_path(crate::text::string_bytes(&f.path))
                &&& f.source@.len() == 0
                &&& f.tree.root.children@.len() == 0
            },
            same_symbols(r.symbols@, snapshot.symbols@),
            same_edges(r.edges@, snapshot.edges@),
            var_types_view(r.var_types@) == var_types_view(snapshot.var_types@),
            same_classes(r.hierarchy@, snapshot.hierarchy@),
            imports_view(r.imports@) == imports_view(snapshot.imports@),
            namespaces_view(r.namespaces@) == namespaces_view(snapshot.namespaces@),
    {
        let mut files: Vec<IndexedFile> = Vec::new();
        let mut k: usize = 0;
        while k < snapshot.files.len()
            invariant
                k <= snapshot.files@.len(),
                files@.len() == k,
                forall|i: int| 0 <= i < k ==> {
                    let f = #[trigger] files@[i];
                    &&& f.path@ == snapshot.files@[i].path@
                    &&& f.language == crate::language::language_of_path(crate::text::string_bytes(&f.path))
                    &&& f.source@.len() == 0
                    &&& f.tree.root.children@.len() == 0
                    &&& positions_fit(f.tree.root)
                },
            decreases snapshot.files@.len() - k,
        {
            let path = snapshot.files[k].path.clone();
            let language = Language::from_path(path.as_str());
            let tree = SyntaxTree::placeholder();
            proof {
                assert(tree.root.children@ =~= Seq::<SyntaxNode>::empty());
                assert(positions_fit(tree.root));
            }
            files.push(IndexedFile { path, language, tree, source: String::new() });
            k = k + 1;
        }
        let graph = CodeGraph {
            files,
            symbols: copy_symbols(&snapshot.symbols),
            edges: copy_edges(&snapshot.edges),
            var_types: copy_var_types(&snapshot.var_types),
            hierarchy: copy_classes(&snapshot.hierarchy),
            imports: copy_imports(&snapshot.imports),
            namespaces: copy_namespaces(&snapshot.namespaces),
        };
        proof {
            assert forall|i: int| 0 <= i < graph.symbols@.len() implies symbol_in_files(
                #[trigger] graph.symbols@[i],
                graph.files@,
            ) by {
                assert(same_symbol(graph.symbols@[i], snapshot.symbols@[i]));
            }
            assert forall|i: int| 0 <= i < graph.edges@.len() implies (#[trigger] graph.edges@[i]).caller
                < graph.symbols@.len() && (graph.edges@[i].callee matches Some(c) ==> c < graph.symbols@.len()) by {
                assert(same_edge(graph.edges@[i], snapshot.edges@[i]));
            }
        }
        graph
    }

    /// Supplies the parsed content of file `index` of a restored index; the
    /// file keeps its path and every other part of the index is unchanged.
    pub fn restore_file(&mut self, index: usize, tree: SyntaxTree, source: String)
        requires
            old(self).wf(),
            index < old(self).files@.len(),
            positions_fit(tree.root),
        ensures
            final(self).wf(),
            final(self).files@.len() == old(self).files@.len(),
            final(self).files@[index as int].path@ == old(self).files@[index as int].path@,
            final(self).files@[index as int].language == old(self).files@[index as int].language,
            final(self).files@[index as int].tree == tree,
            final(self).files@[index as int].source@ == source@,
            forall|i: int| 0 <= i < old(self).files@.len() && i != index ==> final(self).files@[i] == old(self).files@[i],
            final(self).symbols == old(self).symbols,
            final(self).edges == old(self).edges,
            final(self).var_types == old(self).var_types,
            final(self).hierarchy == old(self).hierarchy,
            final(self).imports == old(self).imports,
            final(self).namespaces == old(self).namespaces,
    {
        let path = self.files[index].path.clone();
        let language = self.files[index].language;
        let file = IndexedFile { path, language, tree, source };
        self.files.set(index, file);
        proof {
            assert forall|i: int| 0 <= i < self.symbols@.len() implies symbol_in_files(
                #[trigger] self.symbols@[i],
                self.files@,
            ) by {
                assert(symbol_in_files(old(self).symbols@[i], old(self).files@));
            }
        }
    }
}

/// A snapshot taken of an index and restored again gives back the same
/// symbols, edges and facts: whatever `snapshot_with` then `from_snapshot`
/// promise, composed.
pub proof fn lemma_snapshot_round_trip(g: CodeGraph, snap: GraphSnapshot, restored: CodeGraph)
    requires
        same_symbols(snap.symbols@, g.symbols@),
        same_edges(snap.edges@, g.edges@),
        var_types_view(snap.var_types@) == var_types_view(g.var_types@),
        same_classes(snap.hierarchy@, g.hierarchy@),
        imports_view(snap.imports@) == imports_view(g.imports@),
        namespaces_view(snap.namespaces@) == namespaces_view(g.namespaces@),
        same_symbols(restored.symbols@, snap.symbols@),
        same_edges(restored.edges@, snap.edges@),
        var_types_view(restored.var_types@) == var_types_view(snap.var_types@),
        same_classes(restored.hierarchy@, snap.hierarchy@),
        imports_view(restored.imports@) == imports_view(snap.imports@),
        namespaces_view(restored.namespaces@) == namespaces_view(snap.namespaces@),
    ensures
        same_symbols(restored.symbols@, g.symbols@),
        same_edges(restored.edges@, g.edges@),
        var_types_view(restored.var_types@) == var_types_view(g.var_types@),
        same_classes(restored.hierarchy@, g.hierarchy@),
        imports_view(restored.imports@) == imports_view(g.imports@),
        namespaces_view(restored.namespaces@) == namespaces_view(g.namespaces@),
{
    assert forall|i: int| 0 <= i < restored.symbols@.len() implies same_symbol(#[trigger] restored.symbols@[i], g.symbols@[i]) by {
        assert(same_symbol(restored.symbols@[i], snap.symbols@[i]));
        assert(same_symbol(snap.symbols@[i], g.symbols@[i]));
    }
    assert forall|i: int| 0 <= i < restored.edges@.len() implies same_edge(#[trigger] restored.edges@[i], g.edges@[i]) by {
        assert(same_edge(restored.edges@[i], snap.edges@[i]));
        assert(same_edge(snap.edges@[i], g.edges@[i]));
    }
    assert forall|i: int| 0 <= i < restored.hierarchy@.len() implies same_class(#[trigger] restored.hierarchy@[i], g.hierarchy@[i]) by {
        assert(same_class(restored.hierarchy@[i], snap.hierarchy@[i]));
        assert(same_class(snap.hierarchy@[i], g.hierarchy@[i]));
    }
}

/// A snapshot of a well-formed index that records the index's own files,
/// in order, can be restored: it is consistent.
pub proof fn lemma_own_snapshot_is_consistent(g: CodeGraph, snap: GraphSnapshot)
    requires
        g.wf(),
        snap.files@.len() == g.files@.len(),
        forall|i: int| 0 <= i < g.files@.len() ==> (#[trigger] snap.files@[i]).path@ == g.files@[i].path@,
        same_symbols(snap.symbols@, g.symbols@),
        same_edges(snap.edges@, g.edges@),
    ensures
        spec_consistent(snap),
{
    assert forall|i: int| 0 <= i < snap.symbols@.len() implies {
        let s = #[trigger] snap.symbols@[i];
        s.file_index < snap.files@.len() && s.file@ == snap.files@[s.file_index as int].path@
    } by {
        assert(same_symbol(snap.symbols@[i], g.symbols@[i]));
        assert(symbol_in_files(g.symbols@[i], g.files@));
    }
    assert forall|i: int| 0 <= i < snap.edges@.len() implies (#[trigger] snap.edges@[i]).caller
        < snap.symbols@.len() && (snap.edges@[i].callee matches Some(c) ==> c < snap.symbols@.len()) by {
        assert(same_edge(snap.edges@[i], g.edges@[i]));
    }
}

/// The hash recorded for a path that is recorded once is that record's.
proof fn lemma_lookup_unique(entries: Seq<(Seq<char>, Seq<char>)>, k: int)
    requires
        0 <= k < entries.len(),
        forall|i: int, j: int| 0 <= i < j < entries.len() ==> (#[trigger] entries[i]).0 != (#[trigger] entries[j]).0,
    ensures
        lookup(entries, entries[k].0) == Some(entries[k].1),
    decreases entries.len(),
{
    if k < entries.len() - 1 {
        let init = entries.drop_last();
        assert(init[k] == entries[k]);
        assert(entries.last() == entries[entries.len() - 1]);
        lemma_lookup_unique(init, k);
    }
}

proof fn lemma_all_hashed(entries: Seq<(Seq<char>, Seq<char>)>)
    ensures
        hashed_count(entries.map_values(|e: (Seq<char>, Seq<char>)| (e.0, Some(e.1)))) == entries.len(),
    decreases entries.len(),
{
    if entries.len() > 0 {
        let f = entries.map_values(|e: (Seq<char>, Seq<char>)| (e.0, Some(e.1)));
        assert(f.drop_last() =~= entries.drop_last().map_values(|e: (Seq<char>, Seq<char>)| (e.0, Some(e.1))));
        lemma_all_hashed(entries.drop_last());
    }
}

proof fn lemma_distinct_of_distinct(s: Seq<Seq<char>>)
    requires
        s.no_duplicates(),
    ensures
        distinct(s) == s,
    decreases s.len(),
{
    if s.len() > 0 {
        let init = s.drop_last();
        lemma_distinct_of_distinct(init);
        assert(!init.contains(s.last())) by {
            if init.contains(s.last()) {
                let j = choose|j: int| 0 <= j < init.len() && init[j] == s.last();
                assert(s[j] == s[s.len() - 1]);
            }
        }
        assert(init.push(s.last()) =~= s);
    }
}

/// A snapshot that records each path once matches exactly the scan of its
/// own (path, hash) records: an unchanged scan restores it.
pub proof fn lemma_snapshot_matches_its_records(entries: Seq<(Seq<char>, Seq<char>)>)
    requires
        forall|i: int, j: int| 0 <= i < j < entries.len() ==> (#[trigger] entries[i]).0 != (#[trigger] entries[j]).0,
    ensures
        spec_matches(entries, entries.map_values(|e: (Seq<char>, Seq<char>)| (e.0, Some(e.1)))),
{
    let files = entries.map_values(|e: (Seq<char>, Seq<char>)| (e.0, Some(e.1)));
    assert forall|i: int| 0 <= i < files.len() implies ((#[trigger] files[i]).1 matches Some(h) ==> lookup(
        entries,
        files[i].0,
    ) == Some(h)) by {
        lemma_lookup_unique(entries, i);
    }
    lemma_all_hashed(entries);
    let paths = entries.map_values(|e: (Seq<char>, Seq<char>)| e.0);
    assert(paths.no_duplicates()) by {
        assert forall|i: int, j: int| 0 <= i < paths.len() && 0 <= j < paths.len() && i != j implies paths[i]
            != paths[j] by {
            if i < j {
                assert(entries[i].0 != entries[j].0);
            } else {
                assert(entries[j].0 != entries[i].0);
            }
        }
    }
    lemma_distinct_of_distinct(paths);
}

/// The text after the last `.` (the whole text when there is none).
pub open spec fn after_last_dot(s: Seq<char>) -> Seq<char>
    decreases s.len(),
{
    if s.len() == 0 {
        s
    } else if s.last() == '.' {
        Seq::empty()
    } else {
        after_last_dot(s.drop_last()).push(s.last())
    }
}

/// The text before the first `<` (the whole text when there is none).
pub open spec fn before_first_lt(s: Seq<char>) -> Seq<char>
    decreases s.len(),
{
    if s.len() == 0 {
        s
    } else if s[0] == '<' {
        Seq::empty()
    } else {
        seq![s[0]] + before_first_lt(s.drop_first())
    }
}

/// The simple type name of a (possibly qualified, possibly generic) type
/// text: the type arguments are cut off first, then the last dotted
/// segment is taken and trimmed (`java.util.Map<java.lang.String, User>`
/// gives `Map`).
pub open spec fn spec_type_name(text: Seq<char>) -> Seq<char> {
    trim_chars(after_last_dot(before_first_lt(text)))
}

pub fn simple_type_name(text: &str) -> (r: String)
    ensures
        r@ == spec_type_name(text@),
{
    let cs = chars_of(text);
    let n = cs.len();
    let mut e: usize = 0;
    proof {
        assert(cs@.subrange(0, n as int) =~= cs@);
        assert(cs@.subrange(0, 0) + before_first_lt(cs@.subrange(0, n as int)) =~= before_first_lt(cs@));
    }
    while e < n && cs[e] != '<'
        invariant
            e <= n == cs@.len(),
            before_first_lt(cs@) == cs@.subrange(0, e as int) + before_first_lt(cs@.subrange(e as int, n as int)),
        decreases n - e,
    {
        proof {
            let rest = cs@.subrange(e as int, n as int);
            assert(rest[0] == cs@[e as int]);
            assert(rest.drop_first() =~= cs@.subrange(e + 1, n as int));
            assert(cs@.subrange(0, e as int) + (seq![cs@[e as int]] + before_first_lt(cs@.subrange(e + 1, n as int)))
                =~= cs@.subrange(0, e + 1) + before_first_lt(cs@.subrange(e + 1, n as int)));
        }
        e = e + 1;
    }
    proof {
        let rest = cs@.subrange(e as int, n as int);
        if e < n {
            assert(rest[0] == cs@[e as int]);
        }
        assert(before_first_lt(rest) =~= Seq::<char>::empty());
        assert(before_first_lt(cs@) =~= cs@.subrange(0, e as int));
    }
    let ghost pre = cs@.subrange(0, e as int);
    let mut d = e;
    proof {
        assert(pre.subrange(0, e as int) =~= pre);
        assert(after_last_dot(pre) + pre.subrange(e as int, e as int) =~= after_last_dot(pre));
    }
    while d > 0 && cs[d - 1] != '.'
        invariant
            d <= e <= n == cs@.len(),
            pre == cs@.subrange(0, e as int),
            after_last_dot(pre) == after_last_dot(pre.subrange(0, d as int)) + pre.subrange(d as int, e as int),
        decreases d,
    {
        proof {
            let sub = pre.subrange(0, d as int);
            assert(sub.drop_last() =~= pre.subrange(0, d - 1));
            assert(sub.last() == pre[d - 1]);
            assert(after_last_dot(pre.subrange(0, d - 1)).push(pre[d - 1]) + pre.subrange(d as int, e as int)
                =~= after_last_dot(pre.subrange(0, d - 1)) + pre.subrange(d - 1, e as int));
        }
        d = d - 1;
    }
    proof {
        if d > 0 {
            assert(pre.subrange(0, d as int).last() == pre[d - 1]);
        }
        assert(after_last_dot(pre.subrange(0, d as int)) =~= Seq::<char>::empty());
        assert(after_last_dot(pre) =~= cs@.subrange(d as int, e as int));
    }
    let (a, b) = trim_range(cs.as_slice(), d, e);
    string_from_chars(cs.as_slice(), a, b)
}

/// A parsed source file that participates in the architecture index.
#[derive(Debug)]
pub struct IndexedFile {
    pub path: String,
    pub language: Language,
    pub tree: SyntaxTree,
    pub source: String,
}

/// The architecture index of a scan: every symbol and every call edge, with
/// callees resolved against the project's own definitions.
#[derive(Debug)]
pub struct CodeGraph {
    pub files: Vec<IndexedFile>,
    pub symbols: Vec<GraphSymbol>,
    pub edges: Vec<CallEdge>,
    /// (file index, enclosing method line [0 = class scope], variable,
    /// declared type).
    pub var_types: Vec<(usize, usize, String, String)>,
    /// Class inheritance and implementation facts.
    pub hierarchy: Vec<ClassInfo>,
    /// (file index, local name, imported path, original imported name).
    pub imports: Vec<(usize, String, String, String)>,
    /// (file index, namespace name, imported path).
    pub namespaces: Vec<(usize, String, String)>,
}

/// A symbol belongs to file `i` of `files`.
pub open spec fn symbol_in_files(s: GraphSymbol, files: Seq<IndexedFile>) -> bool {
    s.file_index < files.len() && s.file@ == files[s.file_index as int].path@
}

impl CodeGraph {
    /// Every cross-reference of the index points inside it.
    pub open spec fn wf(&self) -> bool {
        &&& forall|i: int| 0 <= i < self.symbols@.len() ==> symbol_in_files(#[trigger] self.symbols@[i], self.files@)
        &&& forall|i: int| 0 <= i < self.edges@.len() ==> (#[trigger] self.edges@[i]).caller < self.symbols@.len()
            && (self.edges@[i].callee matches Some(c) ==> c < self.symbols@.len())
        &&& forall|i: int| 0 <= i < self.files@.len() ==> positions_fit((#[trigger] self.files@[i]).tree.root)
    }
}

/// Type-declaring node kinds whose names qualify the methods inside them.
pub open spec fn spec_class_like(kind: Seq<char>) -> bool {
    kind == "class_declaration"@ || kind == "interface_declaration"@ || kind == "enum_declaration"@ || kind
        == "annotation_type_declaration"@ || kind == "class"@ || kind == "interface"@
}

fn is_class_like(kind: &str) -> (r: bool)
    ensures
        r == spec_class_like(kind@),
{
    str_eq(kind, "class_declaration") || str_eq(kind, "interface_declaration") || str_eq(kind, "enum_declaration")
        || str_eq(kind, "annotation_type_declaration") || str_eq(kind, "class") || str_eq(kind, "interface")
}

/// `a.b.c`: the names joined by dots.
pub open spec fn dotted(names: Seq<Seq<char>>) -> Seq<char>
    decreases names.len(),
{
    if names.len() == 0 {
        Seq::empty()
    } else if names.len() == 1 {
        names[0]
    } else {
        dotted(names.drop_last()) + seq!['.'] + names.last()
    }
}

/// `Class.method` through the enclosing type names, outermost first;
/// `method` when there is none.
pub open spec fn spec_qualify(classes: Seq<Seq<char>>, name: Seq<char>) -> Seq<char> {
    dotted(classes.push(name))
}

fn qualify(classes: &Vec<String>, name: &str) -> (r: String)
    ensures
        r@ == spec_qualify(crate::var_set::names_of(classes@), name@),
{
    let ghost names = crate::var_set::names_of(classes@);
    let mut out = String::new();
    let mut k: usize = 0;
    while k < classes.len()
        invariant
            k <= classes@.len(),
            names == crate::var_set::names_of(classes@),
            k > 0 ==> out@ + seq!['.'] == dotted(names.subrange(0, k as int)) + seq!['.'],
            k > 0 ==> out@ == dotted(names.subrange(0, k as int)),
            k == 0 ==> out@.len() == 0,
        decreases classes@.len() - k,
    {
        if k > 0 {
            push_str(&mut out, ".");
        }
        push_str(&mut out, classes[k].as_str());
        proof {
            reveal_strlit(".");
            let sub = names.subrange(0, k + 1);
            assert(sub.drop_last() =~= names.subrange(0, k as int));
            assert(sub.last() == classes@[k as int]@);
            if k == 0 {
                assert(sub.len() == 1);
                assert(out@ =~= sub[0]);
            } else {
                assert(out@ =~= dotted(sub));
            }
        }
        k = k + 1;
    }
    if k > 0 {
        push_str(&mut out, ".");
    }
    push_str(&mut out, name);
    proof {
        reveal_strlit(".");
        let all = names.push(name@);
        assert(names.subrange(0, names.len() as int) =~= names);
        if names.len() == 0 {
            assert(all.len() == 1);
            assert(out@ =~= all[0]);
        } else {
            assert(all.drop_last() =~= names);
            assert(out@ =~= dotted(all));
        }
    }
    out
}

/// The symbol kind of a function-like declaration.
pub open spec fn spec_symbol_kind(kind: Seq<char>) -> SymbolKind {
    if kind == "constructor_declaration"@ {
        SymbolKind::Constructor
    } else if kind == "method_declaration"@ || kind == "method_definition"@ {
        SymbolKind::Method
    } else {
        SymbolKind::Function
    }
}

fn symbol_kind(kind: &str) -> (r: SymbolKind)
    ensures
        r == spec_symbol_kind(kind@),
{
    if str_eq(kind, "constructor_declaration") {
        SymbolKind::Constructor
    } else if str_eq(kind, "method_declaration") || str_eq(kind, "method_definition") {
        SymbolKind::Method
    } else {
        SymbolKind::Function
    }
}

/// Rows added to `var_types` all belong to file `fi`, earlier rows stay.
pub open spec fn rows_added(old: Seq<(usize, usize, String, String)>, new: Seq<(usize, usize, String, String)>, fi: usize) -> bool {
    &&& old.len() <= new.len()
    &&& forall|i: int| 0 <= i < old.len() ==> new[i] == #[trigger] old[i]
    &&& forall|i: int| old.len() <= i < new.len() ==> (#[trigger] new[i]).0 == fi
}

proof fn lemma_rows_added_trans(
    a: Seq<(usize, usize, String, String)>,
    b: Seq<(usize, usize, String, String)>,
    c: Seq<(usize, usize, String, String)>,
    fi: usize,
)
    requires
        rows_added(a, b, fi),
        rows_added(b, c, fi),
    ensures
        rows_added(a, c, fi),
{
    assert forall|i: int| a.len() <= i < c.len() implies (#[trigger] c[i]).0 == fi by {
        if i < b.len() {
            assert(c[i] == b[i]);
        }
    }
    assert forall|i: int| 0 <= i < a.len() implies c[i] == #[trigger] a[i] by {
        assert(b[i] == a[i]);
        assert(c[i] == b[i]);
    }
}

proof fn lemma_symbols_added_trans(a: Seq<GraphSymbol>, b: Seq<GraphSymbol>, c: Seq<GraphSymbol>, file: IndexedFile, fi: usize)
    requires
        symbols_added(a, b, file, fi),
        symbols_added(b, c, file, fi),
    ensures
        symbols_added(a, c, file, fi),
{
    assert forall|i: int| a.len() <= i < c.len() implies (#[trigger] c[i]).file_index == fi && c[i].file@ == file.path@
        && c[i].language == file.language by {
        if i < b.len() {
            assert(c[i] == b[i]);
        }
    }
    assert forall|i: int| 0 <= i < a.len() implies c[i] == #[trigger] a[i] by {
        assert(b[i] == a[i]);
        assert(c[i] == b[i]);
    }
}

/// The node naming what a parameter or declaration declares: its `name`,
/// or the `name` under its `pattern`.
pub open spec fn typed_name_node(n: SyntaxNode) -> Option<SyntaxNode> {
    match field_child(n, "name"@) {
        Some(x) => Some(x),
        None => match field_child(n, "pattern"@) {
            Some(p) => field_child(p, "name"@),
            None => None,
        },
    }
}

/// The (file, line, name, simple type) row one parameter or declaration
/// node gives, when it has both a type and a name with text.
pub open spec fn typed_row(n: SyntaxNode, src: Seq<u8>, fi: usize, line: usize) -> Seq<(usize, usize, Seq<char>, Seq<char>)> {
    match opt_node_text(field_child(n, "type"@), src) {
        Some(t) => match opt_node_text(typed_name_node(n), src) {
            Some(name) => seq![(fi, line, name, spec_type_name(t))],
            None => Seq::empty(),
        },
        None => Seq::empty(),
    }
}

/// Parameter kinds that carry a declared type.
pub open spec fn typed_param_kind(kind: Seq<char>) -> bool {
    kind == "formal_parameter"@ || kind == "typed_parameter"@ || kind == "typed_default_parameter"@ || kind
        == "required_parameter"@
}

/// Declaration kinds that carry a declared type.
pub open spec fn typed_decl_kind(kind: Seq<char>) -> bool {
    kind == "local_variable_declaration"@ || kind == "field_declaration"@ || kind == "variable_declaration"@
}

/// The rows of those of `cs` whose kind is a typed parameter kind (when
/// `params`) or a typed declaration kind, in order.
pub open spec fn typed_rows(cs: Seq<SyntaxNode>, params: bool, src: Seq<u8>, fi: usize, line: usize) -> Seq<(usize, usize, Seq<char>, Seq<char>)>
    decreases cs.len(),
{
    if cs.len() == 0 {
        Seq::empty()
    } else {
        let prev = typed_rows(cs.drop_last(), params, src, fi, line);
        let k = cs.last().kind@;
        if (params && typed_param_kind(k)) || (!params && typed_decl_kind(k)) {
            prev + typed_row(cs.last(), src, fi, line)
        } else {
            prev
        }
    }
}

/// The rows a method gives (Java and TypeScript only): its typed
/// parameters, then its direct typed declarations.
pub open spec fn method_typed_rows(method: SyntaxNode, language: Language, src: Seq<u8>, fi: usize, line: usize) -> Seq<(usize, usize, Seq<char>, Seq<char>)> {
    if !(language == Language::Java || language == Language::TypeScript) {
        Seq::empty()
    } else {
        (match field_child(method, "parameters"@) {
            Some(p) => typed_rows(p.children@, true, src, fi, line),
            None => Seq::empty(),
        }) + typed_rows(method.children@, false, src, fi, line)
    }
}

/// Records the declared type of one parameter or declaration node.
fn push_typed(node: &SyntaxNode, source: &str, file_index: usize, line: usize, var_types: &mut Vec<(usize, usize, String, String)>)
    ensures
        rows_added(old(var_types)@, final(var_types)@, file_index),
        var_types_view(final(var_types)@) == var_types_view(old(var_types)@) + typed_row(*node, sbytes(source), file_index, line),
{
    let ghost start = var_types_view(var_types@);
    proof {
        assert(start + Seq::<(usize, usize, Seq<char>, Seq<char>)>::empty() =~= start);
    }
    let ty = match field_child_exec(node, "type") {
        Some(t) => match node_text_exec(t, source) {
            Some(text) => simple_type_name(text),
            None => {
                return;
            },
        },
        None => {
            return;
        },
    };
    let name_node = match field_child_exec(node, "name") {
        Some(n) => Some(n),
        None => match field_child_exec(node, "pattern") {
            Some(p) => field_child_exec(p, "name"),
            None => None,
        },
    };
    proof {
        assert(match name_node {
            Some(n) => typed_name_node(*node) == Some(*n),
            None => typed_name_node(*node) is None,
        });
    }
    match name_node {
        Some(n) => match node_text_exec(n, source) {
            Some(name) => {
                var_types.push((file_index, line, name.to_string(), ty));
                assert(var_types_view(var_types@) =~= start + typed_row(*node, sbytes(source), file_index, line));
            },
            None => {},
        },
        None => {},
    }
}

/// Records the declared types of a method's parameters and local
/// declarations (Java and TypeScript), scoped to the method's line.
fn collect_typed_vars(
    method: &SyntaxNode,
    file: &IndexedFile,
    file_index: usize,
    line: usize,
    var_types: &mut Vec<(usize, usize, String, String)>,
)
    ensures
        rows_added(old(var_types)@, final(var_types)@, file_index),
        var_types_view(final(var_types)@) == var_types_view(old(var_types)@) + method_typed_rows(
            *method,
            file.language,
            string_bytes(&file.source),
            file_index,
            line,
        ),
{
    let ghost src = string_bytes(&file.source);
    let ghost v0 = var_types_view(var_types@);
    if !(file.language == Language::Java || file.language == Language::TypeScript) {
        assert(v0 + Seq::<(usize, usize, Seq<char>, Seq<char>)>::empty() =~= v0);
        return;
    }
    let ghost start = var_types@;
    match field_child_exec(method, "parameters") {
        Some(parameters) => {
            let mut k: usize = 0;
            proof {
                assert(parameters.children@.subrange(0, 0) =~= Seq::<SyntaxNode>::empty());
                assert(v0 + Seq::<(usize, usize, Seq<char>, Seq<char>)>::empty() =~= v0);
            }
            while k < parameters.children.len()
                invariant
                    k <= parameters.children@.len(),
                    rows_added(start, var_types@, file_index),
                    src == string_bytes(&file.source),
                    var_types_view(var_types@) == v0 + typed_rows(parameters.children@.subrange(0, k as int), true, src, file_index, line),
                decreases parameters.children@.len() - k,
            {
                proof {
                    let sub = parameters.children@.subrange(0, k + 1);
                    assert(sub.drop_last() =~= parameters.children@.subrange(0, k as int));
                    assert(sub.last() == parameters.children@[k as int]);
                }
                let param = &parameters.children[k];
                let kind = param.kind.as_str();
                let ghost vb = var_types_view(var_types@);
                if str_eq(kind, "formal_parameter") || str_eq(kind, "typed_parameter") || str_eq(
                    kind,
                    "typed_default_parameter",
                ) || str_eq(kind, "required_parameter") {
                    let ghost before = var_types@;
                    push_typed(param, file.source.as_str(), file_index, line, var_types);
                    proof {
                        lemma_rows_added_trans(start, before, var_types@, file_index);
                        assert(var_types_view(var_types@) =~= v0 + typed_rows(parameters.children@.subrange(0, k + 1), true, src, file_index, line));
                    }
                }
                k = k + 1;
            }
            proof {
                assert(parameters.children@.subrange(0, parameters.children@.len() as int) =~= parameters.children@);
            }
        },
        None => {
            assert(v0 + Seq::<(usize, usize, Seq<char>, Seq<char>)>::empty() =~= v0);
        },
    }
    let ghost v1 = var_types_view(var_types@);
    let mut k: usize = 0;
    proof {
        assert(method.children@.subrange(0, 0) =~= Seq::<SyntaxNode>::empty());
        assert(v1 + Seq::<(usize, usize, Seq<char>, Seq<char>)>::empty() =~= v1);
    }
    while k < method.children.len()
        invariant
            k <= method.children@.len(),
            rows_added(start, var_types@, file_index),
            src == string_bytes(&file.source),
            var_types_view(var_types@) == v1 + typed_rows(method.children@.subrange(0, k as int), false, src, file_index, line),
        decreases method.children@.len() - k,
    {
        proof {
            let sub = method.children@.subrange(0, k + 1);
            assert(sub.drop_last() =~= method.children@.subrange(0, k as int));
            assert(sub.last() == method.children@[k as int]);
        }
        let child = &method.children[k];
        let kind = child.kind.as_str();
        if str_eq(kind, "local_variable_declaration") || str_eq(kind, "field_declaration") || str_eq(
            kind,
            "variable_declaration",
        ) {
            let ghost before = var_types@;
            push_typed(child, file.source.as_str(), file_index, line, var_types);
            proof {
                lemma_rows_added_trans(start, before, var_types@, file_index);
                assert(var_types_view(var_types@) =~= v1 + typed_rows(method.children@.subrange(0, k + 1), false, src, file_index, line));
            }
        }
        k = k + 1;
    }
    proof {
        assert(method.children@.subrange(0, method.children@.len() as int) =~= method.children@);
        assert(var_types_view(var_types@) =~= v0 + method_typed_rows(*method, file.language, src, file_index, line));
    }
}

/// Symbols added by a collection all belong to `file` (index `fi`), earlier
/// symbols stay.
pub open spec fn symbols_added(old: Seq<GraphSymbol>, new: Seq<GraphSymbol>, file: IndexedFile, fi: usize) -> bool {
    &&& old.len() <= new.len()
    &&& forall|i: int| 0 <= i < old.len() ==> new[i] == #[trigger] old[i]
    &&& forall|i: int| old.len() <= i < new.len() ==> (#[trigger] new[i]).file_index == fi && new[i].file@
        == file.path@ && new[i].language == file.language
}

/// What a symbol says: (name, qualified name, kind, file, file index,
/// line, declaration byte, language).
pub open spec fn symbol_view(s: GraphSymbol) -> (Seq<char>, Seq<char>, SymbolKind, Seq<char>, usize, usize, usize, Language) {
    (s.name@, s.qualified_name@, s.kind, s.file@, s.file_index, s.line, s.start_byte, s.language)
}

pub open spec fn symbols_view(v: Seq<GraphSymbol>) -> Seq<(Seq<char>, Seq<char>, SymbolKind, Seq<char>, usize, usize, usize, Language)> {
    v.map_values(|s: GraphSymbol| symbol_view(s))
}

/// The symbols and declared-type rows of a subtree: a function-like node
/// gives its symbol (when its name has text), qualified by the enclosing
/// `classes`, and its typed parameters and declarations, and is not
/// searched further; a Java field declaration gives its typed rows; a
/// class-like node with a named name encloses what lies below it.
pub open spec fn symbols_of(n: SyntaxNode, file: IndexedFile, fi: usize, classes: Seq<Seq<char>>) -> (
    Seq<(Seq<char>, Seq<char>, SymbolKind, Seq<char>, usize, usize, usize, Language)>,
    Seq<(usize, usize, Seq<char>, Seq<char>)>,
)
    decreases n, 1int,
{
    let src = string_bytes(&file.source);
    if spec_method_like(file.language, n.kind@) {
        let line = (n.start_row + 1) as usize;
        (
            match opt_node_text(field_child(n, "name"@), src) {
                Some(name) => seq![
                    (
                        name,
                        spec_qualify(classes, name),
                        spec_symbol_kind(n.kind@),
                        file.path@,
                        fi,
                        line,
                        n.start_byte,
                        file.language,
                    ),
                ],
                None => Seq::empty(),
            },
            method_typed_rows(n, file.language, src, fi, line),
        )
    } else {
        let own_rows = if file.language == Language::Java && n.kind@ == "field_declaration"@ {
            method_typed_rows(n, file.language, src, fi, 0)
        } else {
            Seq::empty()
        };
        let inner = if spec_class_like(n.kind@) {
            match opt_node_text(field_child(n, "name"@), src) {
                Some(t) => classes.push(t),
                None => classes,
            }
        } else {
            classes
        };
        let ch = children_symbols(n.children@, file, fi, inner);
        (ch.0, own_rows + ch.1)
    }
}

pub open spec fn children_symbols(cs: Seq<SyntaxNode>, file: IndexedFile, fi: usize, classes: Seq<Seq<char>>) -> (
    Seq<(Seq<char>, Seq<char>, SymbolKind, Seq<char>, usize, usize, usize, Language)>,
    Seq<(usize, usize, Seq<char>, Seq<char>)>,
)
    decreases cs, 0int,
{
    if cs.len() == 0 {
        (Seq::empty(), Seq::empty())
    } else {
        let prev = children_symbols(cs.drop_last(), file, fi, classes);
        let last = symbols_of(cs.last(), file, fi, classes);
        (prev.0 + last.0, prev.1 + last.1)
    }
}

/// Collects the functions and methods of a subtree as symbols (nested
/// functions are not searched), with the declared types their bodies and
/// classes expose. `classes` are the enclosing type names, outermost first.
fn collect_symbols(
    node: &SyntaxNode,
    file: &IndexedFile,
    file_index: usize,
    classes: &mut Vec<String>,
    out: &mut Vec<GraphSymbol>,
    var_types: &mut Vec<(usize, usize, String, String)>,
)
    requires
        positions_fit(*node),
    ensures
        symbols_added(old(out)@, final(out)@, *file, file_index),
        rows_added(old(var_types)@, final(var_types)@, file_index),
        final(classes)@ == old(classes)@,
        symbols_view(final(out)@) == symbols_view(old(out)@) + symbols_of(*node, *file, file_index, names_of(old(classes)@)).0,
        var_types_view(final(var_types)@) == var_types_view(old(var_types)@) + symbols_of(
            *node,
            *file,
            file_index,
            names_of(old(classes)@),
        ).1,
    decreases node,
{
    let ghost src = string_bytes(&file.source);
    let ghost s0 = symbols_view(out@);
    let ghost r0 = var_types_view(var_types@);
    let ghost cl = names_of(classes@);
    proof {
        assert(s0 + Seq::<(Seq<char>, Seq<char>, SymbolKind, Seq<char>, usize, usize, usize, Language)>::empty() =~= s0);
        assert(r0 + Seq::<(usize, usize, Seq<char>, Seq<char>)>::empty() =~= r0);
    }
    if is_method_like(file.language, node.kind.as_str()) {
        let line = node.start_row + 1;
        let name = match field_child_exec(node, "name") {
            Some(n) => node_text_exec(n, file.source.as_str()),
            None => None,
        };
        match name {
            Some(name) => {
                let qualified_name = qualify(classes, name);
                out.push(
                    GraphSymbol {
                        name: name.to_string(),
                        qualified_name,
                        kind: symbol_kind(node.kind.as_str()),
                        file: file.path.clone(),
                        file_index,
                        line,
                        start_byte: node.start_byte,
                        language: file.language,
                    },
                );
            },
            None => {},
        }
        assert(symbols_view(out@) =~= s0 + symbols_of(*node, *file, file_index, cl).0);
        collect_typed_vars(node, file, file_index, line, var_types);
        return;
    }
    let ghost entry_vt = var_types@;
    if file.language == Language::Java && str_eq(node.kind.as_str(), "field_declaration") {
        collect_typed_vars(node, file, file_index, 0, var_types);
    }
    let ghost own_rows = if file.language == Language::Java && node.kind@ == "field_declaration"@ {
        method_typed_rows(*node, file.language, src, file_index, 0)
    } else {
        Seq::<(usize, usize, Seq<char>, Seq<char>)>::empty()
    };
    assert(var_types_view(var_types@) =~= r0 + own_rows);
    let mut pushed = false;
    if is_class_like(node.kind.as_str()) {
        match field_child_exec(node, "name") {
            Some(n) => match node_text_exec(n, file.source.as_str()) {
                Some(t) => {
                    classes.push(t.to_string());
                    pushed = true;
                },
                None => {},
            },
            None => {},
        }
    }
    let ghost start_out = out@;
    let ghost start_vt = var_types@;
    let ghost inner = classes@;
    let ghost r1 = var_types_view(var_types@);
    let mut k: usize = 0;
    proof {
        assert(node.children@.subrange(0, 0) =~= Seq::<SyntaxNode>::empty());
        assert(s0 + Seq::<(Seq<char>, Seq<char>, SymbolKind, Seq<char>, usize, usize, usize, Language)>::empty() =~= s0);
        assert(r1 + Seq::<(usize, usize, Seq<char>, Seq<char>)>::empty() =~= r1);
        assert(names_of(inner) == (if spec_class_like(node.kind@) {
            match opt_node_text(field_child(*node, "name"@), src) {
                Some(t) => cl.push(t),
                None => cl,
            }
        } else {
            cl
        })) by {
            assert(names_of(inner) =~= (if spec_class_like(node.kind@) {
                match opt_node_text(field_child(*node, "name"@), src) {
                    Some(t) => cl.push(t),
                    None => cl,
                }
            } else {
                cl
            }));
        }
    }
    while k < node.children.len()
        invariant
            k <= node.children@.len(),
            positions_fit(*node),
            symbols_added(start_out, out@, *file, file_index),
            rows_added(start_vt, var_types@, file_index),
            classes@ == inner,
            src == string_bytes(&file.source),
            s0 == symbols_view(start_out),
            r1 == var_types_view(start_vt),
            symbols_view(out@) == s0 + children_symbols(node.children@.subrange(0, k as int), *file, file_index, names_of(inner)).0,
            var_types_view(var_types@) == r1 + children_symbols(node.children@.subrange(0, k as int), *file, file_index, names_of(inner)).1,
        decreases node.children@.len() - k,
    {
        proof {
            lemma_children_fit(node.children@, k as int);
            let sub = node.children@.subrange(0, k + 1);
            assert(sub.drop_last() =~= node.children@.subrange(0, k as int));
            assert(sub.last() == node.children@[k as int]);
        }
        let ghost before_out = out@;
        let ghost before_vt = var_types@;
        collect_symbols(&node.children[k], file, file_index, classes, out, var_types);
        proof {
            lemma_symbols_added_trans(start_out, before_out, out@, *file, file_index);
            lemma_rows_added_trans(start_vt, before_vt, var_types@, file_index);
        }
        k = k + 1;
        proof {
            assert(symbols_view(out@) =~= s0 + children_symbols(node.children@.subrange(0, k as int), *file, file_index, names_of(inner)).0);
            assert(var_types_view(var_types@) =~= r1 + children_symbols(node.children@.subrange(0, k as int), *file, file_index, names_of(inner)).1);
        }
    }
    proof {
        assert(node.children@.subrange(0, node.children@.len() as int) =~= node.children@);
    }
    if pushed {
        classes.pop();
    }
    assert(classes@ =~= old(classes)@);
    proof {
        lemma_rows_added_trans(entry_vt, start_vt, var_types@, file_index);
        assert(symbols_view(out@) =~= s0 + symbols_of(*node, *file, file_index, cl).0);
        assert(var_types_view(var_types@) =~= r0 + symbols_of(*node, *file, file_index, cl).1);
    }
}

/// Number of leading `c`s.
pub open spec fn lead_run(s: Seq<char>, c: char) -> nat
    decreases s.len(),
{
    if s.len() > 0 && s[0] == c {
        1 + lead_run(s.drop_first(), c)
    } else {
        0
    }
}

/// Number of trailing `c`s.
pub open spec fn trail_run(s: Seq<char>, c: char) -> nat
    decreases s.len(),
{
    if s.len() > 0 && s.last() == c {
        1 + trail_run(s.drop_last(), c)
    } else {
        0
    }
}

/// `str::trim_matches(c)`: the text without leading and trailing `c`s.
pub open spec fn strip_char(s: Seq<char>, c: char) -> Seq<char> {
    let rest = s.subrange(lead_run(s, c) as int, s.len() as int);
    rest.subrange(0, rest.len() - trail_run(rest, c))
}

proof fn lemma_lead_run(s: Seq<char>, c: char, k: int)
    requires
        0 <= k <= s.len(),
        forall|j: int| 0 <= j < k ==> s[j] == c,
        k == s.len() || s[k] != c,
    ensures
        lead_run(s, c) == k,
    decreases k,
{
    if k > 0 {
        lemma_lead_run(s.drop_first(), c, k - 1);
    }
}

proof fn lemma_trail_run(s: Seq<char>, c: char, k: int)
    requires
        0 <= k <= s.len(),
        forall|j: int| k <= j < s.len() ==> s[j] == c,
        k == 0 || s[k - 1] != c,
    ensures
        trail_run(s, c) == s.len() - k,
    decreases s.len() - k,
{
    if k < s.len() {
        lemma_trail_run(s.drop_last(), c, k);
    }
}

/// Strips leading and trailing `c`s.
pub fn trim_matches_char(s: &str, c: char) -> (r: String)
    ensures
        r@ == strip_char(s@, c),
{
    let cs = chars_of(s);
    let n = cs.len();
    let mut a: usize = 0;
    while a < n && cs[a] == c
        invariant
            a <= n == cs@.len(),
            forall|j: int| 0 <= j < a ==> cs@[j] == c,
        decreases n - a,
    {
        a = a + 1;
    }
    proof {
        lemma_lead_run(cs@, c, a as int);
    }
    let mut b: usize = n;
    while b > a && cs[b - 1] == c
        invariant
            a <= b <= n == cs@.len(),
            forall|j: int| b <= j < n ==> cs@[j] == c,
        decreases b,
    {
        b = b - 1;
    }
    proof {
        let rest = cs@.subrange(a as int, n as int);
        lemma_trail_run(rest, c, b - a);
        assert(rest.subrange(0, rest.len() - trail_run(rest, c)) =~= cs@.subrange(a as int, b as int));
    }
    string_from_chars(cs.as_slice(), a, b)
}

/// Hierarchy facts added by a collection all belong to file `fi`.
pub open spec fn classes_added(old: Seq<ClassInfo>, new: Seq<ClassInfo>, fi: usize) -> bool {
    &&& old.len() <= new.len()
    &&& forall|i: int| 0 <= i < old.len() ==> new[i] == #[trigger] old[i]
    &&& forall|i: int| old.len() <= i < new.len() ==> (#[trigger] new[i]).file_index == fi
}

proof fn lemma_classes_added_trans(a: Seq<ClassInfo>, b: Seq<ClassInfo>, c: Seq<ClassInfo>, fi: usize)
    requires
        classes_added(a, b, fi),
        classes_added(b, c, fi),
    ensures
        classes_added(a, c, fi),
{
    assert forall|i: int| a.len() <= i < c.len() implies (#[trigger] c[i]).file_index == fi by {
        if i < b.len() {
            assert(c[i] == b[i]);
        }
    }
    assert forall|i: int| 0 <= i < a.len() implies c[i] == #[trigger] a[i] by {
        assert(b[i] == a[i]);
        assert(c[i] == b[i]);
    }
}

/// The simple type names of the children of `node` that have text.
fn child_type_names(node: &SyntaxNode, source: &str, out: &mut Vec<String>)
    ensures
        names_of(final(out)@) == names_of(old(out)@) + type_names_of(node.children@, sbytes(source)),
{
    let ghost start = names_of(out@);
    let mut k: usize = 0;
    proof {
        assert(node.children@.subrange(0, 0) =~= Seq::<SyntaxNode>::empty());
        assert(names_of(out@) =~= start + Seq::<Seq<char>>::empty());
    }
    while k < node.children.len()
        invariant
            k <= node.children@.len(),
            names_of(out@) == start + type_names_of(node.children@.subrange(0, k as int), sbytes(source)),
        decreases node.children@.len() - k,
    {
        proof {
            let sub = node.children@.subrange(0, k + 1);
            assert(sub.drop_last() =~= node.children@.subrange(0, k as int));
            assert(sub.last() == node.children@[k as int]);
        }
        let ghost before = names_of(out@);
        match node_text_exec(&node.children[k], source) {
            Some(t) => {
                let n = simple_type_name(t);
                out.push(n);
                proof {
                    assert(names_of(out@) =~= before.push(spec_type_name(t@)));
                }
            },
            None => {},
        }
        k = k + 1;
        proof {
            assert(names_of(out@) =~= start + type_names_of(node.children@.subrange(0, k as int), sbytes(source)));
        }
    }
    proof {
        assert(node.children@.subrange(0, node.children@.len() as int) =~= node.children@);
    }
}

/// The simple type names of those of `cs` that have text, in order.
pub open spec fn type_names_of(cs: Seq<SyntaxNode>, src: Seq<u8>) -> Seq<Seq<char>>
    decreases cs.len(),
{
    if cs.len() == 0 {
        Seq::empty()
    } else {
        let prev = type_names_of(cs.drop_last(), src);
        match node_text(cs.last(), src) {
            Some(t) => prev.push(spec_type_name(t)),
            None => prev,
        }
    }
}

/// The simple type name of the first of `cs` that has text.
pub open spec fn first_type_name(cs: Seq<SyntaxNode>, src: Seq<u8>) -> Option<Seq<char>>
    decreases cs.len(),
{
    if cs.len() == 0 {
        None
    } else {
        let prev = first_type_name(cs.drop_last(), src);
        if prev is Some {
            prev
        } else {
            match node_text(cs.last(), src) {
                Some(t) => Some(spec_type_name(t)),
                None => None,
            }
        }
    }
}

proof fn lemma_first_type_name_prefix(cs: Seq<SyntaxNode>, k: int, src: Seq<u8>)
    requires
        0 <= k <= cs.len(),
        first_type_name(cs.subrange(0, k), src) is Some,
    ensures
        first_type_name(cs, src) == first_type_name(cs.subrange(0, k), src),
    decreases cs.len() - k,
{
    if k < cs.len() {
        let sub = cs.subrange(0, k + 1);
        assert(sub.drop_last() =~= cs.subrange(0, k));
        lemma_first_type_name_prefix(cs, k + 1, src);
    } else {
        assert(cs.subrange(0, k) =~= cs);
    }
}

/// TypeScript heritage clauses: the last `extends` clause names the
/// superclass (its first texted child), `implements` clauses add
/// interfaces in order.
pub open spec fn ts_heritage(cs: Seq<SyntaxNode>, src: Seq<u8>) -> (Option<Seq<char>>, Seq<Seq<char>>)
    decreases cs.len(),
{
    if cs.len() == 0 {
        (None, Seq::empty())
    } else {
        let prev = ts_heritage(cs.drop_last(), src);
        let c = cs.last();
        if c.kind@ == "extends_clause"@ {
            (first_type_name(c.children@, src), prev.1)
        } else if c.kind@ == "implements_clause"@ {
            (prev.0, prev.1 + type_names_of(c.children@, src))
        } else {
            prev
        }
    }
}

/// The superclass and interfaces a class declaration names (Java and
/// TypeScript; none in other languages).
pub open spec fn spec_heritage(node: SyntaxNode, language: Language, src: Seq<u8>) -> (Option<Seq<char>>, Seq<Seq<char>>) {
    match language {
        Language::Java => (
            match opt_node_text(field_child(node, "superclass"@), src) {
                Some(t) => Some(spec_type_name(t)),
                None => None,
            },
            match field_child(node, "interfaces"@) {
                Some(i) => type_names_of(i.children@, src),
                None => Seq::empty(),
            },
        ),
        Language::TypeScript => match field_child(node, "class_heritage"@) {
            Some(h) => ts_heritage(h.children@, src),
            None => (None, Seq::empty()),
        },
        _ => (None, Seq::empty()),
    }
}

/// The superclass and interfaces a class declaration names.
fn class_heritage(node: &SyntaxNode, file: &IndexedFile) -> (r: (Option<String>, Vec<String>))
    ensures
        crate::taint::opt_text(r.0) == spec_heritage(*node, file.language, string_bytes(&file.source)).0,
        names_of(r.1@) == spec_heritage(*node, file.language, string_bytes(&file.source)).1,
{
    let source = file.source.as_str();
    let ghost src = sbytes(source);
    let mut extends: Option<String> = None;
    let mut implements: Vec<String> = Vec::new();
    proof {
        assert(names_of(implements@) =~= Seq::<Seq<char>>::empty());
    }
    match file.language {
        Language::Java => {
            extends = match field_child_exec(node, "superclass") {
                Some(sc) => match node_text_exec(sc, source) {
                    Some(t) => Some(simple_type_name(t)),
                    None => None,
                },
                None => None,
            };
            match field_child_exec(node, "interfaces") {
                Some(interfaces) => {
                    child_type_names(interfaces, source, &mut implements);
                    assert(names_of(implements@) =~= type_names_of(interfaces.children@, src));
                },
                None => {},
            }
        },
        Language::TypeScript => {
            match field_child_exec(node, "class_heritage") {
                Some(heritage) => {
                    let mut k: usize = 0;
                    proof {
                        assert(heritage.children@.subrange(0, 0) =~= Seq::<SyntaxNode>::empty());
                    }
                    while k < heritage.children.len()
                        invariant
                            k <= heritage.children@.len(),
                            src == sbytes(source),
                            crate::taint::opt_text(extends) == ts_heritage(heritage.children@.subrange(0, k as int), src).0,
                            names_of(implements@) == ts_heritage(heritage.children@.subrange(0, k as int), src).1,
                        decreases heritage.children@.len() - k,
                    {
                        proof {
                            let sub = heritage.children@.subrange(0, k + 1);
                            assert(sub.drop_last() =~= heritage.children@.subrange(0, k as int));
                            assert(sub.last() == heritage.children@[k as int]);
                        }
                        let clause = &heritage.children[k];
                        if str_eq(clause.kind.as_str(), "extends_clause") {
                            let mut found: Option<String> = None;
                            let mut j: usize = 0;
                            proof {
                                assert(clause.children@.subrange(0, 0) =~= Seq::<SyntaxNode>::empty());
                            }
                            while j < clause.children.len() && found.is_none()
                                invariant
                                    j <= clause.children@.len(),
                                    src == sbytes(source),
                                    crate::taint::opt_text(found) == first_type_name(clause.children@.subrange(0, j as int), src),
                                decreases clause.children@.len() - j,
                            {
                                proof {
                                    let sub = clause.children@.subrange(0, j + 1);
                                    assert(sub.drop_last() =~= clause.children@.subrange(0, j as int));
                                    assert(sub.last() == clause.children@[j as int]);
                                }
                                match node_text_exec(&clause.children[j], source) {
                                    Some(t) => {
                                        found = Some(simple_type_name(t));
                                    },
                                    None => {},
                                }
                                j = j + 1;
                            }
                            proof {
                                if found is Some {
                                    lemma_first_type_name_prefix(clause.children@, j as int, src);
                                } else {
                                    assert(clause.children@.subrange(0, j as int) =~= clause.children@);
                                }
                            }
                            extends = found;
                        } else if str_eq(clause.kind.as_str(), "implements_clause") {
                            child_type_names(clause, source, &mut implements);
                        }
                        k = k + 1;
                    }
                    proof {
                        assert(heritage.children@.subrange(0, heritage.children@.len() as int) =~= heritage.children@);
                    }
                },
                None => {},
            }
        },
        _ => {},
    }
    (extends, implements)
}

/// The class facts of a subtree: each class declaration with a name that
/// has text, with its heritage; nested classes are not searched.
pub open spec fn hierarchy_of(n: SyntaxNode, language: Language, src: Seq<u8>, fi: usize) -> Seq<(usize, Seq<char>, Option<Seq<char>>, Seq<Seq<char>>)>
    decreases n, 1int,
{
    if n.kind@ == "class_declaration"@ {
        match opt_node_text(field_child(n, "name"@), src) {
            Some(name) => seq![(fi, name, spec_heritage(n, language, src).0, spec_heritage(n, language, src).1)],
            None => Seq::empty(),
        }
    } else {
        children_hierarchy(n.children@, language, src, fi)
    }
}

pub open spec fn children_hierarchy(cs: Seq<SyntaxNode>, language: Language, src: Seq<u8>, fi: usize) -> Seq<(usize, Seq<char>, Option<Seq<char>>, Seq<Seq<char>>)>
    decreases cs, 0int,
{
    if cs.len() == 0 {
        Seq::empty()
    } else {
        children_hierarchy(cs.drop_last(), language, src, fi) + hierarchy_of(cs.last(), language, src, fi)
    }
}

/// What a list of class facts says.
pub open spec fn classes_view(v: Seq<ClassInfo>) -> Seq<(usize, Seq<char>, Option<Seq<char>>, Seq<Seq<char>>)> {
    v.map_values(|c: ClassInfo| (c.file_index, c.name@, crate::taint::opt_text(c.extends), names_of(c.implements@)))
}

/// Records `class X extends Y implements A, B` facts (Java and
/// TypeScript); nested classes are not tracked.
fn collect_hierarchy(node: &SyntaxNode, file: &IndexedFile, file_index: usize, out: &mut Vec<ClassInfo>)
    ensures
        classes_added(old(out)@, final(out)@, file_index),
        classes_view(final(out)@) == classes_view(old(out)@) + hierarchy_of(
            *node,
            file.language,
            string_bytes(&file.source),
            file_index,
        ),
    decreases node,
{
    let ghost src = string_bytes(&file.source);
    let ghost v0 = classes_view(out@);
    if str_eq(node.kind.as_str(), "class_declaration") {
        let name = match field_child_exec(node, "name") {
            Some(n) => match node_text_exec(n, file.source.as_str()) {
                Some(t) => t.to_string(),
                None => {
                    assert(v0 + Seq::<(usize, Seq<char>, Option<Seq<char>>, Seq<Seq<char>>)>::empty() =~= v0);
                    return;
                },
            },
            None => {
                assert(v0 + Seq::<(usize, Seq<char>, Option<Seq<char>>, Seq<Seq<char>>)>::empty() =~= v0);
                return;
            },
        };
        let (extends, implements) = class_heritage(node, file);
        out.push(ClassInfo { file_index, name, extends, implements });
        assert(classes_view(out@) =~= v0 + hierarchy_of(*node, file.language, src, file_index));
        return;
    }
    let ghost start = out@;
    let mut k: usize = 0;
    proof {
        assert(node.children@.subrange(0, 0) =~= Seq::<SyntaxNode>::empty());
        assert(classes_view(out@) =~= v0 + Seq::<(usize, Seq<char>, Option<Seq<char>>, Seq<Seq<char>>)>::empty());
    }
    while k < node.children.len()
        invariant
            k <= node.children@.len(),
            classes_added(start, out@, file_index),
            src == string_bytes(&file.source),
            v0 == classes_view(start),
            classes_view(out@) == v0 + children_hierarchy(node.children@.subrange(0, k as int), file.language, src, file_index),
        decreases node.children@.len() - k,
    {
        proof {
            let sub = node.children@.subrange(0, k + 1);
            assert(sub.drop_last() =~= node.children@.subrange(0, k as int));
            assert(sub.last() == node.children@[k as int]);
        }
        let ghost before = out@;
        collect_hierarchy(&node.children[k], file, file_index, out);
        proof {
            lemma_classes_added_trans(start, before, out@, file_index);
            assert(classes_view(out@) =~= v0 + children_hierarchy(node.children@.subrange(0, k + 1), file.language, src, file_index));
        }
        k = k + 1;
    }
    proof {
        assert(node.children@.subrange(0, node.children@.len() as int) =~= node.children@);
    }
}

/// Import rows added by a collection all belong to file `fi`.
pub open spec fn imports_added(
    old_i: Seq<(usize, String, String, String)>,
    new_i: Seq<(usize, String, String, String)>,
    old_n: Seq<(usize, String, String)>,
    new_n: Seq<(usize, String, String)>,
    fi: usize,
) -> bool {
    &&& old_i.len() <= new_i.len()
    &&& forall|i: int| 0 <= i < old_i.len() ==> new_i[i] == #[trigger] old_i[i]
    &&& forall|i: int| old_i.len() <= i < new_i.len() ==> (#[trigger] new_i[i]).0 == fi
    &&& old_n.len() <= new_n.len()
    &&& forall|i: int| 0 <= i < old_n.len() ==> new_n[i] == #[trigger] old_n[i]
    &&& forall|i: int| old_n.len() <= i < new_n.len() ==> (#[trigger] new_n[i]).0 == fi
}

proof fn lemma_imports_added_trans(
    a: Seq<(usize, String, String, String)>,
    b: Seq<(usize, String, String, String)>,
    c: Seq<(usize, String, String, String)>,
    x: Seq<(usize, String, String)>,
    y: Seq<(usize, String, String)>,
    z: Seq<(usize, String, String)>,
    fi: usize,
)
    requires
        imports_added(a, b, x, y, fi),
        imports_added(b, c, y, z, fi),
    ensures
        imports_added(a, c, x, z, fi),
{
    assert forall|i: int| a.len() <= i < c.len() implies (#[trigger] c[i]).0 == fi by {
        if i < b.len() {
            assert(c[i] == b[i]);
        }
    }
    assert forall|i: int| 0 <= i < a.len() implies c[i] == #[trigger] a[i] by {
        assert(b[i] == a[i]);
        assert(c[i] == b[i]);
    }
    assert forall|i: int| x.len() <= i < z.len() implies (#[trigger] z[i]).0 == fi by {
        if i < y.len() {
            assert(z[i] == y[i]);
        }
    }
    assert forall|i: int| 0 <= i < x.len() implies z[i] == #[trigger] x[i] by {
        assert(y[i] == x[i]);
        assert(z[i] == y[i]);
    }
}

/// The import clause of a JavaScript or TypeScript import statement.
pub open spec fn js_clause(node: SyntaxNode) -> Option<SyntaxNode> {
    match field_child(node, "import_clause"@) {
        Some(c) => Some(c),
        None => kind_child(node, "import_clause"@),
    }
}

/// The rows of the specifiers of `import { a, b as c } from "m"`.
pub open spec fn specifier_rows(cs: Seq<SyntaxNode>, src: Seq<u8>, fi: usize, module: Seq<char>) -> Seq<(usize, Seq<char>, Seq<char>, Seq<char>)>
    decreases cs.len(),
{
    if cs.len() == 0 {
        Seq::empty()
    } else {
        let prev = specifier_rows(cs.drop_last(), src, fi, module);
        let c = cs.last();
        if c.kind@ == "import_specifier"@ {
            match opt_node_text(field_child(c, "name"@), src) {
                Some(name) => prev.push(
                    (
                        fi,
                        match opt_node_text(field_child(c, "alias"@), src) {
                            Some(a) => a,
                            None => name,
                        },
                        module,
                        name,
                    ),
                ),
                None => prev,
            }
        } else {
            prev
        }
    }
}

/// The (import rows, namespace rows) of the parts of an import clause:
/// a default import binds its name, `* as n` binds a namespace, named
/// imports bind each specifier.
pub open spec fn clause_rows(cs: Seq<SyntaxNode>, src: Seq<u8>, fi: usize, module: Seq<char>) -> (
    Seq<(usize, Seq<char>, Seq<char>, Seq<char>)>,
    Seq<(usize, Seq<char>, Seq<char>)>,
)
    decreases cs.len(),
{
    if cs.len() == 0 {
        (Seq::empty(), Seq::empty())
    } else {
        let prev = clause_rows(cs.drop_last(), src, fi, module);
        let c = cs.last();
        if c.kind@ == "identifier"@ {
            match node_text(c, src) {
                Some(name) => (prev.0.push((fi, name, module, name)), prev.1),
                None => prev,
            }
        } else if c.kind@ == "namespace_import"@ {
            match opt_node_text(kind_child(c, "identifier"@), src) {
                Some(name) => (prev.0, prev.1.push((fi, name, module))),
                None => prev,
            }
        } else if c.kind@ == "named_imports"@ {
            (prev.0 + specifier_rows(c.children@, src, fi, module), prev.1)
        } else {
            prev
        }
    }
}

/// The rows of one JavaScript or TypeScript import statement; the module
/// is the source text without its quotes.
pub open spec fn js_import_rows(node: SyntaxNode, src: Seq<u8>, fi: usize) -> (
    Seq<(usize, Seq<char>, Seq<char>, Seq<char>)>,
    Seq<(usize, Seq<char>, Seq<char>)>,
) {
    match opt_node_text(field_child(node, "source"@), src) {
        Some(t) => match js_clause(node) {
            Some(c) => clause_rows(c.children@, src, fi, strip_char(strip_char(t, '"'), '\'')),
            None => (Seq::empty(), Seq::empty()),
        },
        None => (Seq::empty(), Seq::empty()),
    }
}

/// What a list of (local, imported) name pairs says.
pub open spec fn pairs_view(v: Seq<(String, String)>) -> Seq<(Seq<char>, Seq<char>)> {
    v.map_values(|p: (String, String)| (p.0@, p.1@))
}

/// The (local name, imported name) one Python import item binds: an
/// `aliased_import` binds its alias to its name (when it has an alias),
/// any other item binds its own text.
pub open spec fn import_pair(c: SyntaxNode, src: Seq<u8>) -> Option<(Seq<char>, Seq<char>)> {
    if c.kind@ == "aliased_import"@ {
        match opt_node_text(field_child(c, "alias"@), src) {
            Some(a) => Some(
                (
                    a,
                    match opt_node_text(field_child(c, "name"@), src) {
                        Some(n) => n,
                        None => a,
                    },
                ),
            ),
            None => None,
        }
    } else {
        match node_text(c, src) {
            Some(t) => Some((t, t)),
            None => None,
        }
    }
}

/// The (local, imported) names of a Python `import_list`, in order.
pub open spec fn import_list_names(cs: Seq<SyntaxNode>, src: Seq<u8>) -> Seq<(Seq<char>, Seq<char>)>
    decreases cs.len(),
{
    if cs.len() == 0 {
        Seq::empty()
    } else {
        let prev = import_list_names(cs.drop_last(), src);
        match import_pair(cs.last(), src) {
            Some(p) => prev.push(p),
            None => prev,
        }
    }
}

/// The (local, imported) names a Python `from m import ...` binds.
pub open spec fn py_names(node: SyntaxNode, src: Seq<u8>) -> Seq<(Seq<char>, Seq<char>)> {
    match field_child(node, "name"@) {
        Some(name) => if name.kind@ == "import_list"@ {
            import_list_names(name.children@, src)
        } else {
            match import_pair(name, src) {
                Some(p) => seq![p],
                None => Seq::empty(),
            }
        },
        None => Seq::empty(),
    }
}

/// The (local, imported) names one Python import item binds.
fn import_pair_exec(c: &SyntaxNode, text: &str) -> (r: Option<(String, String)>)
    ensures
        match r {
            Some(p) => import_pair(*c, sbytes(text)) == Some((p.0@, p.1@)),
            None => import_pair(*c, sbytes(text)) is None,
        },
{
    if str_eq(c.kind.as_str(), "aliased_import") {
        match field_child_exec(c, "alias") {
            Some(a) => match node_text_exec(a, text) {
                Some(alias) => {
                    let original = match field_child_exec(c, "name") {
                        Some(n) => match node_text_exec(n, text) {
                            Some(t) => t.to_string(),
                            None => alias.to_string(),
                        },
                        None => alias.to_string(),
                    };
                    Some((alias.to_string(), original))
                },
                None => None,
            },
            None => None,
        }
    } else {
        match node_text_exec(c, text) {
            Some(t) => Some((t.to_string(), t.to_string())),
            None => None,
        }
    }
}

/// The rows of one Python node: `from m import a` binds `a` to `m`,
/// `import m` binds the namespace `m`.
pub open spec fn py_import_rows(node: SyntaxNode, src: Seq<u8>, fi: usize) -> (
    Seq<(usize, Seq<char>, Seq<char>, Seq<char>)>,
    Seq<(usize, Seq<char>, Seq<char>)>,
) {
    if node.kind@ == "import_from_statement"@ {
        match opt_node_text(field_child(node, "module_name"@), src) {
            Some(m) => (py_names(node, src).map_values(|n: (Seq<char>, Seq<char>)| (fi, n.0, m, n.1)), Seq::empty()),
            None => (Seq::empty(), Seq::empty()),
        }
    } else if node.kind@ == "import_statement"@ {
        match opt_node_text(kind_child(node, "dotted_name"@), src) {
            Some(m) => (Seq::empty(), seq![(fi, m, m)]),
            None => (Seq::empty(), Seq::empty()),
        }
    } else {
        (Seq::empty(), Seq::empty())
    }
}

/// The import rows of a subtree, node before children.
pub open spec fn imports_of(n: SyntaxNode, language: Language, src: Seq<u8>, fi: usize) -> (
    Seq<(usize, Seq<char>, Seq<char>, Seq<char>)>,
    Seq<(usize, Seq<char>, Seq<char>)>,
)
    decreases n, 1int,
{
    let own = match language {
        Language::JavaScript | Language::TypeScript => if n.kind@ == "import_statement"@ {
            js_import_rows(n, src, fi)
        } else {
            (Seq::empty(), Seq::empty())
        },
        Language::Python => py_import_rows(n, src, fi),
        _ => (Seq::empty(), Seq::empty()),
    };
    let ch = children_imports(n.children@, language, src, fi);
    (own.0 + ch.0, own.1 + ch.1)
}

pub open spec fn children_imports(cs: Seq<SyntaxNode>, language: Language, src: Seq<u8>, fi: usize) -> (
    Seq<(usize, Seq<char>, Seq<char>, Seq<char>)>,
    Seq<(usize, Seq<char>, Seq<char>)>,
)
    decreases cs, 0int,
{
    if cs.len() == 0 {
        (Seq::empty(), Seq::empty())
    } else {
        let prev = children_imports(cs.drop_last(), language, src, fi);
        let last = imports_of(cs.last(), language, src, fi);
        (prev.0 + last.0, prev.1 + last.1)
    }
}

/// `import ... from "p"` in JavaScript and TypeScript.
fn js_import(
    node: &SyntaxNode,
    file: &IndexedFile,
    file_index: usize,
    imports: &mut Vec<(usize, String, String, String)>,
    namespaces: &mut Vec<(usize, String, String)>,
)
    ensures
        imports_added(old(imports)@, final(imports)@, old(namespaces)@, final(namespaces)@, file_index),
        imports_view(final(imports)@) == imports_view(old(imports)@) + js_import_rows(
            *node,
            string_bytes(&file.source),
            file_index,
        ).0,
        namespaces_view(final(namespaces)@) == namespaces_view(old(namespaces)@) + js_import_rows(
            *node,
            string_bytes(&file.source),
            file_index,
        ).1,
{
    let ghost src = string_bytes(&file.source);
    let ghost i0 = imports_view(imports@);
    let ghost n0 = namespaces_view(namespaces@);
    proof {
        assert(i0 + Seq::<(usize, Seq<char>, Seq<char>, Seq<char>)>::empty() =~= i0);
        assert(n0 + Seq::<(usize, Seq<char>, Seq<char>)>::empty() =~= n0);
    }
    let text = file.source.as_str();
    let source = match field_child_exec(node, "source") {
        Some(s) => match node_text_exec(s, text) {
            Some(t) => {
                let a = trim_matches_char(t, '"');
                trim_matches_char(a.as_str(), '\'')
            },
            None => {
                return;
            },
        },
        None => {
            return;
        },
    };
    let clause = match field_child_exec(node, "import_clause") {
        Some(c) => Some(c),
        None => kind_child_exec(node, "import_clause"),
    };
    let clause = match clause {
        Some(c) => c,
        None => {
            return;
        },
    };
    let ghost module = source@;
    let ghost start_i = imports@;
    let ghost start_n = namespaces@;
    let mut k: usize = 0;
    proof {
        assert(clause.children@.subrange(0, 0) =~= Seq::<SyntaxNode>::empty());
    }
    while k < clause.children.len()
        invariant
            k <= clause.children@.len(),
            imports_added(start_i, imports@, start_n, namespaces@, file_index),
            src == string_bytes(&file.source),
            text@ == file.source@,
            module == source@,
            i0 == imports_view(start_i),
            n0 == namespaces_view(start_n),
            imports_view(imports@) == i0 + clause_rows(clause.children@.subrange(0, k as int), src, file_index, module).0,
            namespaces_view(namespaces@) == n0 + clause_rows(clause.children@.subrange(0, k as int), src, file_index, module).1,
        decreases clause.children@.len() - k,
    {
        proof {
            let sub = clause.children@.subrange(0, k + 1);
            assert(sub.drop_last() =~= clause.children@.subrange(0, k as int));
            assert(sub.last() == clause.children@[k as int]);
        }
        let child = &clause.children[k];
        let ghost bi = imports@;
        let ghost bn = namespaces@;
        if str_eq(child.kind.as_str(), "identifier") {
            match node_text_exec(child, text) {
                Some(name) => {
                    imports.push((file_index, name.to_string(), source.clone(), name.to_string()));
                    assert(imports_view(imports@) =~= imports_view(bi).push((file_index, name@, module, name@)));
                },
                None => {},
            }
        } else if str_eq(child.kind.as_str(), "namespace_import") {
            match kind_child_exec(child, "identifier") {
                Some(id) => match node_text_exec(id, text) {
                    Some(name) => {
                        namespaces.push((file_index, name.to_string(), source.clone()));
                        assert(namespaces_view(namespaces@) =~= namespaces_view(bn).push((file_index, name@, module)));
                    },
                    None => {},
                },
                None => {},
            }
        } else if str_eq(child.kind.as_str(), "named_imports") {
            let ghost vb = imports_view(bi);
            let mut j: usize = 0;
            proof {
                assert(child.children@.subrange(0, 0) =~= Seq::<SyntaxNode>::empty());
                assert(vb + Seq::<(usize, Seq<char>, Seq<char>, Seq<char>)>::empty() =~= vb);
            }
            while j < child.children.len()
                invariant
                    j <= child.children@.len(),
                    imports_added(bi, imports@, bn, namespaces@, file_index),
                    namespaces@ == bn,
                    src == string_bytes(&file.source),
                    text@ == file.source@,
                    module == source@,
                    vb == imports_view(bi),
                    imports_view(imports@) == vb + specifier_rows(child.children@.subrange(0, j as int), src, file_index, module),
                decreases child.children@.len() - j,
            {
                proof {
                    let sub = child.children@.subrange(0, j + 1);
                    assert(sub.drop_last() =~= child.children@.subrange(0, j as int));
                    assert(sub.last() == child.children@[j as int]);
                }
                let ghost bj = imports_view(imports@);
                let specifier = &child.children[j];
                if str_eq(specifier.kind.as_str(), "import_specifier") {
                    let name = match field_child_exec(specifier, "name") {
                        Some(n) => node_text_exec(n, text),
                        None => None,
                    };
                    let alias = match field_child_exec(specifier, "alias") {
                        Some(n) => node_text_exec(n, text),
                        None => None,
                    };
                    match name {
                        Some(name) => {
                            let local = match alias {
                                Some(a) => a.to_string(),
                                None => name.to_string(),
                            };
                            imports.push((file_index, local, source.clone(), name.to_string()));
                            assert(imports_view(imports@) =~= bj.push((file_index, local@, module, name@)));
                        },
                        None => {},
                    }
                }
                j = j + 1;
                proof {
                    assert(imports_view(imports@) =~= vb + specifier_rows(child.children@.subrange(0, j as int), src, file_index, module));
                }
            }
            proof {
                assert(child.children@.subrange(0, child.children@.len() as int) =~= child.children@);
            }
        }
        proof {
            lemma_imports_added_trans(start_i, bi, imports@, start_n, bn, namespaces@, file_index);
        }
        k = k + 1;
        proof {
            assert(imports_view(imports@) =~= i0 + clause_rows(clause.children@.subrange(0, k as int), src, file_index, module).0);
            assert(namespaces_view(namespaces@) =~= n0 + clause_rows(clause.children@.subrange(0, k as int), src, file_index, module).1);
        }
    }
    proof {
        assert(clause.children@.subrange(0, clause.children@.len() as int) =~= clause.children@);
    }
}

/// `from m import a` and `import m` in Python.
fn python_import(
    node: &SyntaxNode,
    file: &IndexedFile,
    file_index: usize,
    imports: &mut Vec<(usize, String, String, String)>,
    namespaces: &mut Vec<(usize, String, String)>,
)
    ensures
        imports_added(old(imports)@, final(imports)@, old(namespaces)@, final(namespaces)@, file_index),
        imports_view(final(imports)@) == imports_view(old(imports)@) + py_import_rows(
            *node,
            string_bytes(&file.source),
            file_index,
        ).0,
        namespaces_view(final(namespaces)@) == namespaces_view(old(namespaces)@) + py_import_rows(
            *node,
            string_bytes(&file.source),
            file_index,
        ).1,
{
    let ghost src = string_bytes(&file.source);
    let ghost i0 = imports_view(imports@);
    let ghost n0 = namespaces_view(namespaces@);
    proof {
        assert(i0 + Seq::<(usize, Seq<char>, Seq<char>, Seq<char>)>::empty() =~= i0);
        assert(n0 + Seq::<(usize, Seq<char>, Seq<char>)>::empty() =~= n0);
    }
    let text = file.source.as_str();
    if str_eq(node.kind.as_str(), "import_from_statement") {
        let module = match field_child_exec(node, "module_name") {
            Some(m) => node_text_exec(m, text),
            None => None,
        };
        let mut names: Vec<(String, String)> = Vec::new();
        proof {
            assert(pairs_view(names@) =~= Seq::<(Seq<char>, Seq<char>)>::empty());
        }
        match field_child_exec(node, "name") {
            Some(name) => {
                if str_eq(name.kind.as_str(), "import_list") {
                    let mut k: usize = 0;
                    proof {
                        assert(name.children@.subrange(0, 0) =~= Seq::<SyntaxNode>::empty());
                    }
                    while k < name.children.len()
                        invariant
                            k <= name.children@.len(),
                            src == string_bytes(&file.source),
                            text@ == file.source@,
                            pairs_view(names@) == import_list_names(name.children@.subrange(0, k as int), src),
                        decreases name.children@.len() - k,
                    {
                        proof {
                            let sub = name.children@.subrange(0, k + 1);
                            assert(sub.drop_last() =~= name.children@.subrange(0, k as int));
                            assert(sub.last() == name.children@[k as int]);
                        }
                        let ghost before = pairs_view(names@);
                        match import_pair_exec(&name.children[k], text) {
                            Some(p) => {
                                let ghost pv = (p.0@, p.1@);
                                names.push(p);
                                assert(pairs_view(names@) =~= before.push(pv));
                            },
                            None => {},
                        }
                        k = k + 1;
                    }
                    proof {
                        assert(name.children@.subrange(0, name.children@.len() as int) =~= name.children@);
                    }
                } else {
                    match import_pair_exec(name, text) {
                        Some(p) => {
                            let ghost pv = (p.0@, p.1@);
                            names.push(p);
                            assert(pairs_view(names@) =~= seq![pv]);
                        },
                        None => {},
                    }
                }
            },
            None => {},
        }
        assert(pairs_view(names@) == py_names(*node, src));
        match module {
            Some(module) => {
                let ghost m = module@;
                let ghost rows = pairs_view(names@).map_values(|n: (Seq<char>, Seq<char>)| (file_index, n.0, m, n.1));
                let ghost start = imports@;
                let mut k: usize = 0;
                proof {
                    assert(imports_view(imports@) =~= i0 + rows.subrange(0, 0));
                }
                while k < names.len()
                    invariant
                        k <= names@.len(),
                        imports_added(start, imports@, namespaces@, namespaces@, file_index),
                        rows == pairs_view(names@).map_values(|n: (Seq<char>, Seq<char>)| (file_index, n.0, m, n.1)),
                        m == module@,
                        imports_view(imports@) == i0 + rows.subrange(0, k as int),
                    decreases names@.len() - k,
                {
                    let ghost before = imports_view(imports@);
                    imports.push((file_index, names[k].0.clone(), module.to_string(), names[k].1.clone()));
                    proof {
                        assert(rows[k as int] == (file_index, names@[k as int].0@, m, names@[k as int].1@));
                        assert(imports_view(imports@) =~= before.push(rows[k as int]));
                        assert(rows.subrange(0, k + 1) =~= rows.subrange(0, k as int).push(rows[k as int]));
                    }
                    k = k + 1;
                }
                proof {
                    assert(rows.subrange(0, names@.len() as int) =~= rows);
                }
            },
            None => {},
        }
    } else if str_eq(node.kind.as_str(), "import_statement") {
        match kind_child_exec(node, "dotted_name") {
            Some(d) => match node_text_exec(d, text) {
                Some(module) => {
                    namespaces.push((file_index, module.to_string(), module.to_string()));
                    assert(namespaces_view(namespaces@) =~= n0 + seq![(file_index, module@, module@)]);
                },
                None => {},
            },
            None => {},
        }
    }
}

/// Records import bindings (JavaScript, TypeScript, Python): named imports
/// go to `imports`, namespace and module imports to `namespaces`.
fn collect_imports(
    node: &SyntaxNode,
    file: &IndexedFile,
    file_index: usize,
    imports: &mut Vec<(usize, String, String, String)>,
    namespaces: &mut Vec<(usize, String, String)>,
)
    ensures
        imports_added(old(imports)@, final(imports)@, old(namespaces)@, final(namespaces)@, file_index),
        imports_view(final(imports)@) == imports_view(old(imports)@) + imports_of(
            *node,
            file.language,
            string_bytes(&file.source),
            file_index,
        ).0,
        namespaces_view(final(namespaces)@) == namespaces_view(old(namespaces)@) + imports_of(
            *node,
            file.language,
            string_bytes(&file.source),
            file_index,
        ).1,
    decreases node,
{
    let ghost src = string_bytes(&file.source);
    let ghost i0 = imports_view(imports@);
    let ghost n0 = namespaces_view(namespaces@);
    proof {
        assert(i0 + Seq::<(usize, Seq<char>, Seq<char>, Seq<char>)>::empty() =~= i0);
        assert(n0 + Seq::<(usize, Seq<char>, Seq<char>)>::empty() =~= n0);
    }
    match file.language {
        Language::JavaScript | Language::TypeScript => {
            if str_eq(node.kind.as_str(), "import_statement") {
                js_import(node, file, file_index, imports, namespaces);
            }
        },
        Language::Python => {
            python_import(node, file, file_index, imports, namespaces);
        },
        _ => {},
    }
    let ghost i1 = imports_view(imports@);
    let ghost n1 = namespaces_view(namespaces@);
    let ghost start_i = imports@;
    let ghost start_n = namespaces@;
    let mut k: usize = 0;
    proof {
        assert(node.children@.subrange(0, 0) =~= Seq::<SyntaxNode>::empty());
        assert(i1 + Seq::<(usize, Seq<char>, Seq<char>, Seq<char>)>::empty() =~= i1);
        assert(n1 + Seq::<(usize, Seq<char>, Seq<char>)>::empty() =~= n1);
    }
    while k < node.children.len()
        invariant
            k <= node.children@.len(),
            imports_added(start_i, imports@, start_n, namespaces@, file_index),
            src == string_bytes(&file.source),
            i1 == imports_view(start_i),
            n1 == namespaces_view(start_n),
            imports_view(imports@) == i1 + children_imports(node.children@.subrange(0, k as int), file.language, src, file_index).0,
            namespaces_view(namespaces@) == n1 + children_imports(node.children@.subrange(0, k as int), file.language, src, file_index).1,
        decreases node.children@.len() - k,
    {
        proof {
            let sub = node.children@.subrange(0, k + 1);
            assert(sub.drop_last() =~= node.children@.subrange(0, k as int));
            assert(sub.last() == node.children@[k as int]);
        }
        let ghost bi = imports@;
        let ghost bn = namespaces@;
        collect_imports(&node.children[k], file, file_index, imports, namespaces);
        proof {
            lemma_imports_added_trans(start_i, bi, imports@, start_n, bn, namespaces@, file_index);
        }
        k = k + 1;
        proof {
            assert(imports_view(imports@) =~= i1 + children_imports(node.children@.subrange(0, k as int), file.language, src, file_index).0);
            assert(namespaces_view(namespaces@) =~= n1 + children_imports(node.children@.subrange(0, k as int), file.language, src, file_index).1);
        }
    }
    proof {
        lemma_imports_added_trans(old(imports)@, start_i, imports@, old(namespaces)@, start_n, namespaces@, file_index);
        assert(node.children@.subrange(0, node.children@.len() as int) =~= node.children@);
        assert(imports_view(imports@) =~= i0 + imports_of(*node, file.language, src, file_index).0);
        assert(namespaces_view(namespaces@) =~= n0 + imports_of(*node, file.language, src, file_index).1);
    }
}

/// A call site recorded before its caller's symbol index is known.
pub struct PendingCall {
    pub caller_file: String,
    pub caller_name: String,
    pub caller_line: usize,
    pub callee_text: String,
    pub line: usize,
}

/// Position of the first `(` of `s` from `i` on, or its length.
pub open spec fn paren_at(s: Seq<char>, i: int) -> int
    decreases s.len() - i,
{
    if i >= s.len() || i < 0 {
        s.len() as int
    } else if s[i] == '(' {
        i
    } else {
        paren_at(s, i + 1)
    }
}

/// The callee as written: the text before its first `(`, trimmed; `name`
/// when the text has no `(`.
pub open spec fn spec_call_head(text: Seq<char>, name: Seq<char>) -> Seq<char> {
    let p = paren_at(text, 0);
    if p < text.len() {
        trim_chars(text.subrange(0, p))
    } else {
        name
    }
}

/// The callee as written: the call text before its `(`, trimmed.
fn call_head(text: &str, name: &String) -> (r: String)
    ensures
        r@ == spec_call_head(text@, name@),
{
    let cs = chars_of(text);
    let mut i: usize = 0;
    while i < cs.len() && cs[i] != '('
        invariant
            i <= cs@.len(),
            cs@ == text@,
            paren_at(text@, 0) == paren_at(text@, i as int),
        decreases cs@.len() - i,
    {
        i = i + 1;
    }
    if i < cs.len() {
        let (a, b) = trim_range(cs.as_slice(), 0, i);
        string_from_chars(cs.as_slice(), a, b)
    } else {
        name.clone()
    }
}

/// What a pending call says: (caller file, caller name, caller line,
/// callee as written, call line).
pub open spec fn pending_view(v: Seq<PendingCall>) -> Seq<(Seq<char>, Seq<char>, usize, Seq<char>, usize)> {
    v.map_values(|c: PendingCall| (c.caller_file@, c.caller_name@, c.caller_line, c.callee_text@, c.line))
}

/// What an enclosing function says: (file, name, line).
pub open spec fn enclosing_view(e: Option<(String, String, usize)>) -> Option<(Seq<char>, Seq<char>, usize)> {
    match e {
        Some(t) => Some((t.0@, t.1@, t.2)),
        None => None,
    }
}

/// The call sites under `n` with their enclosing function: a function-like
/// node (whose name has text) becomes the enclosing function of what lies
/// below it; a call with a parsable callee inside a function is recorded
/// before the calls inside it.
pub open spec fn pending_of(
    n: SyntaxNode,
    language: Language,
    path: Seq<char>,
    src: Seq<u8>,
    enclosing: Option<(Seq<char>, Seq<char>, usize)>,
) -> Seq<(Seq<char>, Seq<char>, usize, Seq<char>, usize)>
    decreases n, 1int,
{
    if spec_method_like(language, n.kind@) {
        let inner = match opt_node_text(field_child(n, "name"@), src) {
            Some(name) => Some((path, name, (n.start_row + 1) as usize)),
            None => None,
        };
        children_pending(n.children@, language, path, src, inner)
    } else {
        let own = match enclosing {
            Some(e) => if spec_call(language, n.kind@) {
                match node_text(n, src) {
                    Some(call) => match spec_parse_call(call) {
                        Some(parsed) => seq![(e.0, e.1, e.2, spec_call_head(call, parsed.0), (n.start_row + 1) as usize)],
                        None => Seq::empty(),
                    },
                    None => Seq::empty(),
                }
            } else {
                Seq::empty()
            },
            None => Seq::empty(),
        };
        own + children_pending(n.children@, language, path, src, enclosing)
    }
}

pub open spec fn children_pending(
    cs: Seq<SyntaxNode>,
    language: Language,
    path: Seq<char>,
    src: Seq<u8>,
    enclosing: Option<(Seq<char>, Seq<char>, usize)>,
) -> Seq<(Seq<char>, Seq<char>, usize, Seq<char>, usize)>
    decreases cs, 0int,
{
    if cs.len() == 0 {
        Seq::empty()
    } else {
        children_pending(cs.drop_last(), language, path, src, enclosing) + pending_of(
            cs.last(),
            language,
            path,
            src,
            enclosing,
        )
    }
}

/// Collects the call sites inside functions, each with its enclosing
/// function (file, name, line).
fn collect_edges(node: &SyntaxNode, file: &IndexedFile, enclosing: &Option<(String, String, usize)>, out: &mut Vec<PendingCall>)
    requires
        positions_fit(*node),
    ensures
        old(out)@.len() <= final(out)@.len(),
        forall|i: int| 0 <= i < old(out)@.len() ==> final(out)@[i] == #[trigger] old(out)@[i],
        pending_view(final(out)@) == pending_view(old(out)@) + pending_of(
            *node,
            file.language,
            file.path@,
            string_bytes(&file.source),
            enclosing_view(*enclosing),
        ),
    decreases node, 1int,
{
    let ghost src = string_bytes(&file.source);
    let ghost v0 = pending_view(out@);
    let text = file.source.as_str();
    if is_method_like(file.language, node.kind.as_str()) {
        let inner: Option<(String, String, usize)> = match field_child_exec(node, "name") {
            Some(n) => match node_text_exec(n, text) {
                Some(name) => Some((file.path.clone(), name.to_string(), node.start_row + 1)),
                None => None,
            },
            None => None,
        };
        collect_edge_children(node, file, &inner, out);
        return;
    }
    if is_call(file.language, node.kind.as_str()) {
        match node_text_exec(node, text) {
            Some(call) => match crate::taint_engine::parse_call(call) {
                Some((name, _)) => {
                    let head = call_head(call, &name);
                    match enclosing {
                        Some((caller_file, caller_name, caller_line)) => {
                            out.push(
                                PendingCall {
                                    caller_file: caller_file.clone(),
                                    caller_name: caller_name.clone(),
                                    caller_line: *caller_line,
                                    callee_text: head,
                                    line: node.start_row + 1,
                                },
                            );
                        },
                        None => {},
                    }
                },
                None => {},
            },
            None => {},
        }
    }
    let ghost mid = out@;
    proof {
        let own = pending_view(mid).subrange(v0.len() as int, mid.len() as int);
        assert(pending_view(mid) =~= v0 + own);
    }
    collect_edge_children(node, file, enclosing, out);
    proof {
        assert forall|i: int| 0 <= i < old(out)@.len() implies out@[i] == #[trigger] old(out)@[i] by {
            assert(out@[i] == mid[i]);
        }
        assert(pending_view(out@) =~= v0 + pending_of(*node, file.language, file.path@, src, enclosing_view(*enclosing)));
    }
}

fn collect_edge_children(node: &SyntaxNode, file: &IndexedFile, enclosing: &Option<(String, String, usize)>, out: &mut Vec<PendingCall>)
    requires
        positions_fit(*node),
    ensures
        old(out)@.len() <= final(out)@.len(),
        forall|i: int| 0 <= i < old(out)@.len() ==> final(out)@[i] == #[trigger] old(out)@[i],
        pending_view(final(out)@) == pending_view(old(out)@) + children_pending(
            node.children@,
            file.language,
            file.path@,
            string_bytes(&file.source),
            enclosing_view(*enclosing),
        ),
    decreases node, 0int,
{
    let ghost src = string_bytes(&file.source);
    let ghost start = out@;
    let ghost v0 = pending_view(out@);
    let mut k: usize = 0;
    proof {
        assert(node.children@.subrange(0, 0) =~= Seq::<SyntaxNode>::empty());
        assert(pending_view(out@) =~= v0 + Seq::<(Seq<char>, Seq<char>, usize, Seq<char>, usize)>::empty());
    }
    while k < node.children.len()
        invariant
            k <= node.children@.len(),
            positions_fit(*node),
            start.len() <= out@.len(),
            forall|i: int| 0 <= i < start.len() ==> out@[i] == #[trigger] start[i],
            src == string_bytes(&file.source),
            v0 == pending_view(start),
            pending_view(out@) == v0 + children_pending(
                node.children@.subrange(0, k as int),
                file.language,
                file.path@,
                src,
                enclosing_view(*enclosing),
            ),
        decreases node.children@.len() - k,
    {
        proof {
            lemma_children_fit(node.children@, k as int);
            let sub = node.children@.subrange(0, k + 1);
            assert(sub.drop_last() =~= node.children@.subrange(0, k as int));
            assert(sub.last() == node.children@[k as int]);
        }
        let ghost before = out@;
        collect_edges(&node.children[k], file, enclosing, out);
        proof {
            assert forall|i: int| 0 <= i < start.len() implies out@[i] == #[trigger] start[i] by {
                assert(out@[i] == before[i]);
            }
            assert(pending_view(out@) =~= v0 + children_pending(
                node.children@.subrange(0, k + 1),
                file.language,
                file.path@,
                src,
                enclosing_view(*enclosing),
            ));
        }
        k = k + 1;
    }
    proof {
        assert(node.children@.subrange(0, node.children@.len() as int) =~= node.children@);
    }
}

// ---------- locating declarations ----------

/// Position of the first of `cs`, from `k` on, whose span holds `byte`.
pub open spec fn holding_index(cs: Seq<SyntaxNode>, byte: usize, k: int) -> int
    decreases cs.len() - k,
{
    if k < 0 || k >= cs.len() {
        -1
    } else if cs[k].start_byte <= byte && byte < cs[k].end_byte {
        k
    } else {
        holding_index(cs, byte, k + 1)
    }
}

proof fn lemma_holding_index_bounds(cs: Seq<SyntaxNode>, byte: usize, k: int)
    ensures
        holding_index(cs, byte, k) == -1 || (k <= holding_index(cs, byte, k) < cs.len()),
    decreases cs.len() - k,
{
    if k >= 0 && k < cs.len() && !(cs[k].start_byte <= byte && byte < cs[k].end_byte) {
        lemma_holding_index_bounds(cs, byte, k + 1);
    }
}

/// The innermost function-like node on the path to `byte`: below `n`, the
/// first child whose span holds `byte` is searched; failing that, `n`
/// itself when it is function-like.
pub open spec fn method_holding(n: SyntaxNode, byte: usize, language: Language) -> Option<SyntaxNode>
    decreases n,
{
    let k = holding_index(n.children@, byte, 0);
    let inner = if 0 <= k < n.children@.len() {
        method_holding(n.children@[k], byte, language)
    } else {
        None
    };
    if inner is Some {
        inner
    } else if spec_method_like(language, n.kind@) {
        Some(n)
    } else {
        None
    }
}

/// Body block kinds.
pub open spec fn spec_body_kind(kind: Seq<char>) -> bool {
    kind == "block"@ || kind == "statement_block"@
}

/// The function-like node of `file` that holds `byte` has a body block
/// among its children.
pub open spec fn has_body_at(file: IndexedFile, byte: usize) -> bool {
    &&& file.tree.root.start_byte <= byte < file.tree.root.end_byte
    &&& method_holding(file.tree.root, byte, file.language) matches Some(m) && exists|j: int|
        0 <= j < m.children@.len() && spec_body_kind(#[trigger] m.children@[j].kind@)
}

/// The first function-like node declared at `line` in a pre-order search
/// of `n`, skipping subtrees that end before the line.
pub open spec fn method_on_line(n: SyntaxNode, line: usize, language: Language) -> Option<SyntaxNode>
    decreases n, 1int,
{
    if spec_method_like(language, n.kind@) && n.start_row + 1 == line {
        Some(n)
    } else if n.end_row + 1 < line {
        None
    } else {
        first_on_line(n.children@, line, language)
    }
}

/// `method_on_line` of the first of `cs` that has one.
pub open spec fn first_on_line(cs: Seq<SyntaxNode>, line: usize, language: Language) -> Option<SyntaxNode>
    decreases cs, 0int,
{
    if cs.len() == 0 {
        None
    } else {
        let prev = first_on_line(cs.drop_last(), line, language);
        if prev is Some {
            prev
        } else {
            method_on_line(cs.last(), line, language)
        }
    }
}

proof fn lemma_first_on_line_prefix(cs: Seq<SyntaxNode>, k: int, line: usize, language: Language)
    requires
        0 <= k <= cs.len(),
        first_on_line(cs.subrange(0, k), line, language) is Some,
    ensures
        first_on_line(cs, line, language) == first_on_line(cs.subrange(0, k), line, language),
    decreases cs.len() - k,
{
    if k < cs.len() {
        let sub = cs.subrange(0, k + 1);
        assert(sub.drop_last() =~= cs.subrange(0, k));
        lemma_first_on_line_prefix(cs, k + 1, line, language);
    } else {
        assert(cs.subrange(0, k) =~= cs);
    }
}

/// The innermost function-like node on the path to `byte` (the node whose
/// span holds it, then the child whose span holds it, and so on).
fn method_at_byte<'a>(node: &'a SyntaxNode, byte: usize, language: Language) -> (r: Option<&'a SyntaxNode>)
    requires
        positions_fit(*node),
    ensures
        r matches Some(m) ==> positions_fit(*m) && spec_method_like(language, m.kind@),
        match r {
            Some(m) => method_holding(*node, byte, language) == Some(*m),
            None => method_holding(*node, byte, language) is None,
        },
    decreases node,
{
    proof {
        lemma_holding_index_bounds(node.children@, byte, 0);
    }
    let mut k: usize = 0;
    while k < node.children.len() && !(node.children[k].start_byte <= byte && byte < node.children[k].end_byte)
        invariant
            k <= node.children@.len(),
            holding_index(node.children@, byte, 0) == holding_index(node.children@, byte, k as int),
        decreases node.children@.len() - k,
    {
        k = k + 1;
    }
    if k < node.children.len() {
        let child = &node.children[k];
        proof {
            lemma_children_fit(node.children@, k as int);
        }
        let found = method_at_byte(child, byte, language);
        if found.is_some() {
            return found;
        }
    }
    if is_method_like(language, node.kind.as_str()) {
        Some(node)
    } else {
        None
    }
}

/// The function-like node declared at `line` (1-based), searched in
/// pre-order; subtrees that end before the line are skipped.
fn method_at_line<'a>(node: &'a SyntaxNode, line: usize, language: Language) -> (r: Option<&'a SyntaxNode>)
    requires
        positions_fit(*node),
    ensures
        r matches Some(m) ==> positions_fit(*m) && spec_method_like(language, m.kind@) && m.start_row + 1 == line,
        match r {
            Some(m) => method_on_line(*node, line, language) == Some(*m),
            None => method_on_line(*node, line, language) is None,
        },
    decreases node,
{
    if is_method_like(language, node.kind.as_str()) && node.start_row + 1 == line {
        return Some(node);
    }
    if node.end_row + 1 < line {
        return None;
    }
    let mut k: usize = 0;
    proof {
        assert(node.children@.subrange(0, 0) =~= Seq::<SyntaxNode>::empty());
    }
    while k < node.children.len()
        invariant
            k <= node.children@.len(),
            positions_fit(*node),
            first_on_line(node.children@.subrange(0, k as int), line, language) is None,
            !(spec_method_like(language, node.kind@) && node.start_row + 1 == line),
            !(node.end_row + 1 < line),
        decreases node.children@.len() - k,
    {
        proof {
            lemma_children_fit(node.children@, k as int);
            let sub = node.children@.subrange(0, k + 1);
            assert(sub.drop_last() =~= node.children@.subrange(0, k as int));
            assert(sub.last() == node.children@[k as int]);
        }
        let found = method_at_line(&node.children[k], line, language);
        if found.is_some() {
            proof {
                let sub = node.children@.subrange(0, k + 1);
                assert(sub.drop_last() =~= node.children@.subrange(0, k as int));
                assert(first_on_line(sub, line, language) == method_on_line(node.children@[k as int], line, language));
                lemma_first_on_line_prefix(node.children@, k + 1, line, language);
                assert(method_on_line(*node, line, language) == first_on_line(node.children@, line, language));
            }
            return found;
        }
        k = k + 1;
    }
    proof {
        assert(node.children@.subrange(0, node.children@.len() as int) =~= node.children@);
    }
    None
}

impl IndexedFile {
    /// The function-like node whose declaration starts at `line` (1-based).
    pub fn method_node_at(&self, line: usize) -> (r: Option<&SyntaxNode>)
        requires
            positions_fit(self.tree.root),
        ensures
            r matches Some(m) ==> positions_fit(*m) && spec_method_like(self.language, m.kind@) && m.start_row + 1
                == line,
            match r {
                Some(m) => method_on_line(self.tree.root, line, self.language) == Some(*m),
                None => method_on_line(self.tree.root, line, self.language) is None,
            },
    {
        method_at_line(&self.tree.root, line, self.language)
    }

    /// The function-like node that holds `byte`.
    pub fn method_node_at_byte(&self, byte: usize) -> (r: Option<&SyntaxNode>)
        requires
            positions_fit(self.tree.root),
        ensures
            r matches Some(m) ==> positions_fit(*m) && spec_method_like(self.language, m.kind@),
            match r {
                Some(m) => self.tree.root.start_byte <= byte < self.tree.root.end_byte && method_holding(
                    self.tree.root,
                    byte,
                    self.language,
                ) == Some(*m),
                None => !(self.tree.root.start_byte <= byte < self.tree.root.end_byte) || method_holding(
                    self.tree.root,
                    byte,
                    self.language,
                ) is None,
            },
    {
        if self.tree.root.start_byte <= byte && byte < self.tree.root.end_byte {
            method_at_byte(&self.tree.root, byte, self.language)
        } else {
            None
        }
    }
}

// ---------- lookups ----------

/// `r` lists, in increasing order, exactly the indices below `n` that
/// satisfy `pred`.
pub open spec fn exactly_indices(r: Seq<usize>, n: int, pred: spec_fn(int) -> bool) -> bool {
    &&& forall|j: int| 0 <= j < r.len() ==> (#[trigger] r[j]) < n && pred(r[j] as int)
    &&& forall|j: int, k: int| 0 <= j < k < r.len() ==> r[j] < r[k]
    &&& forall|i: int| 0 <= i < n && #[trigger] pred(i) ==> r.contains(i as usize)
}

/// `r` is the first index below `n` that satisfies `pred`.
pub open spec fn first_index(r: Option<usize>, n: int, pred: spec_fn(int) -> bool) -> bool {
    match r {
        Some(i) => i < n && pred(i as int) && forall|j: int| 0 <= j < i ==> !#[trigger] pred(j),
        None => forall|j: int| 0 <= j < n ==> !#[trigger] pred(j),
    }
}

/// `text` ends with `.` followed by `name`.
pub open spec fn ends_with_member(text: Seq<char>, name: Seq<char>) -> bool {
    text.len() >= name.len() + 1 && text.subrange(text.len() - name.len() - 1, text.len() as int) == seq!['.'] + name
}

fn ends_with_member_exec(text: &str, name: &str) -> (r: bool)
    ensures
        r == ends_with_member(text@, name@),
{
    let t = chars_of(text);
    let n = chars_of(name);
    if t.len() <= n.len() {
        return false;
    }
    let base: usize = t.len() - n.len() - 1;
    let ghost tail = t@.subrange(base as int, t@.len() as int);
    let ghost want = seq!['.'] + name@;
    assert(tail.len() == want.len());
    if t[base] != '.' {
        assert(tail[0] != want[0]);
        return false;
    }
    let tl: usize = t.len();
    let mut k: usize = 0;
    while k < n.len()
        invariant
            k <= n@.len(),
            tl == t@.len(),
            t@ == text@,
            n@ == name@,
            base + n@.len() + 1 == t@.len(),
            tail == t@.subrange(base as int, t@.len() as int),
            want == seq!['.'] + name@,
            t@[base as int] == '.',
            forall|j: int| 0 <= j < k ==> t@[base + 1 + j] == n@[j],
        decreases n@.len() - k,
    {
        let at: usize = base + 1 + k;
        if t[at] != n[k] {
            assert(tail[k + 1] != want[k + 1]);
            return false;
        }
        k = k + 1;
    }
    assert(tail =~= want);
    true
}

/// What `split_once('.')` gives: the text before and after its first `.`.
pub open spec fn split_at_dot(s: Seq<char>) -> Option<(Seq<char>, Seq<char>)> {
    let i = crate::text::first_from(s, seq!['.'], 0);
    if i < 0 {
        None
    } else {
        Some((s.subrange(0, i), s.subrange(i + 1, s.len() as int)))
    }
}

fn split_once_dot(s: &str) -> (r: Option<(String, String)>)
    ensures
        match r {
            Some((a, b)) => split_at_dot(s@) == Some((a@, b@)),
            None => split_at_dot(s@) is None,
        },
{
    let cs = chars_of(s);
    let dot = chars_of(".");
    proof {
        reveal_strlit(".");
        assert(dot@ =~= seq!['.']);
        assert(cs@.subrange(0, cs@.len() as int) =~= cs@);
        crate::text::lemma_first_from(cs@, seq!['.'], 0);
    }
    match crate::text::find_chars_in(cs.as_slice(), dot.as_slice(), 0, cs.len()) {
        Some(i) => Some((string_from_chars(cs.as_slice(), 0, i), string_from_chars(cs.as_slice(), i + 1, cs.len()))),
        None => None,
    }
}

impl CodeGraph {
    /// The symbols named `name`, in symbol order.
    fn symbols_named(&self, name: &str) -> (r: Vec<usize>)
        ensures
            exactly_indices(r@, self.symbols@.len() as int, |i: int| self.symbols@[i].name@ == name@),
    {
        let ghost pred = |i: int| self.symbols@[i].name@ == name@;
        let mut out: Vec<usize> = Vec::new();
        let mut i: usize = 0;
        while i < self.symbols.len()
            invariant
                i <= self.symbols@.len(),
                pred == (|i: int| self.symbols@[i].name@ == name@),
                forall|j: int| 0 <= j < out@.len() ==> (#[trigger] out@[j]) < i && pred(out@[j] as int),
                forall|j: int, k: int| 0 <= j < k < out@.len() ==> out@[j] < out@[k],
                forall|m: int| 0 <= m < i && #[trigger] pred(m) ==> out@.contains(m as usize),
            decreases self.symbols@.len() - i,
        {
            if str_eq(self.symbols[i].name.as_str(), name) {
                let ghost prev = out@;
                out.push(i);
                proof {
                    assert forall|m: int| 0 <= m < i + 1 && #[trigger] pred(m) implies out@.contains(m as usize) by {
                        if m < i {
                            let j = prev.index_of(m as usize);
                            assert(out@[j] == m);
                        } else {
                            assert(out@[prev.len() as int] == m);
                        }
                    }
                }
            } else {
                proof {
                    assert(!pred(i as int));
                }
            }
            i = i + 1;
        }
        out
    }

    /// The first symbol whose qualified name is `qualified`.
    fn qualified_index(&self, qualified: &str) -> (r: Option<usize>)
        ensures
            first_index(r, self.symbols@.len() as int, |i: int| self.symbols@[i].qualified_name@ == qualified@),
            r is None ==> forall|j: int| 0 <= j < self.symbols@.len() ==> (#[trigger] self.symbols@[j]).qualified_name@ != qualified@,
    {
        let mut i: usize = 0;
        while i < self.symbols.len()
            invariant
                i <= self.symbols@.len(),
                forall|j: int| 0 <= j < i ==> self.symbols@[j].qualified_name@ != qualified@,
            decreases self.symbols@.len() - i,
        {
            if str_eq(self.symbols[i].qualified_name.as_str(), qualified) {
                return Some(i);
            }
            i = i + 1;
        }
        None
    }

    /// The symbol `owner.method` (by qualified name).
    fn member_index(&self, owner: &str, method: &str) -> (r: Option<usize>)
        ensures
            first_index(r, self.symbols@.len() as int, |i: int| self.symbols@[i].qualified_name@ == owner@ + seq!['.'] + method@),
            r is None ==> forall|j: int|
                0 <= j < self.symbols@.len() ==> (#[trigger] self.symbols@[j]).qualified_name@ != owner@ + seq!['.'] + method@,
    {
        let mut q = owner.to_string();
        push_str(&mut q, ".");
        push_str(&mut q, method);
        proof {
            reveal_strlit(".");
            assert(q@ =~= owner@ + seq!['.'] + method@);
        }
        self.qualified_index(q.as_str())
    }

    /// The first symbol of the file at `path` named `name`, or whose
    /// qualified name ends with `.name`.
    fn symbol_in_file(&self, path: &str, name: &str) -> (r: Option<usize>)
        ensures
            first_index(
                r,
                self.symbols@.len() as int,
                |i: int|
                    path_components(self.symbols@[i].file@) == path_components(path@) && (self.symbols@[i].name@ == name@ || ends_with_member(
                        self.symbols@[i].qualified_name@,
                        name@,
                    )),
            ),
            r == symbol_in_file_index(self.symbols@, path@, name@, 0),
    {
        let mut i: usize = 0;
        while i < self.symbols.len()
            invariant
                i <= self.symbols@.len(),
                symbol_in_file_index(self.symbols@, path@, name@, 0) == symbol_in_file_index(self.symbols@, path@, name@, i as int),
                forall|j: int|
                    0 <= j < i ==> !(path_components(self.symbols@[j].file@) == path_components(path@) && (self.symbols@[j].name@ == name@
                        || ends_with_member(self.symbols@[j].qualified_name@, name@))),
            decreases self.symbols@.len() - i,
        {
            let s = &self.symbols[i];
            if same_path(s.file.as_str(), path) && (str_eq(s.name.as_str(), name) || ends_with_member_exec(
                s.qualified_name.as_str(),
                name,
            )) {
                return Some(i);
            }
            i = i + 1;
        }
        None
    }

    /// The first import binding of `local` in file `file_index`.
    fn import_for(&self, file_index: usize, local: &str) -> (r: Option<usize>)
        ensures
            first_index(r, self.imports@.len() as int, |i: int| self.imports@[i].0 == file_index && self.imports@[i].1@ == local@),
            r == import_index(self.imports@, file_index, local@, 0),
    {
        let mut i: usize = 0;
        while i < self.imports.len()
            invariant
                i <= self.imports@.len(),
                import_index(self.imports@, file_index, local@, 0) == import_index(self.imports@, file_index, local@, i as int),
                forall|j: int| 0 <= j < i ==> !(self.imports@[j].0 == file_index && self.imports@[j].1@ == local@),
            decreases self.imports@.len() - i,
        {
            if self.imports[i].0 == file_index && str_eq(self.imports[i].1.as_str(), local) {
                return Some(i);
            }
            i = i + 1;
        }
        None
    }

    /// The first namespace binding of `name` in file `file_index`.
    fn namespace_for(&self, file_index: usize, name: &str) -> (r: Option<usize>)
        ensures
            first_index(r, self.namespaces@.len() as int, |i: int| self.namespaces@[i].0 == file_index && self.namespaces@[i].1@ == name@),
            r == namespace_index(self.namespaces@, file_index, name@, 0),
    {
        let mut i: usize = 0;
        while i < self.namespaces.len()
            invariant
                i <= self.namespaces@.len(),
                namespace_index(self.namespaces@, file_index, name@, 0) == namespace_index(self.namespaces@, file_index, name@, i as int),
                forall|j: int| 0 <= j < i ==> !(self.namespaces@[j].0 == file_index && self.namespaces@[j].1@ == name@),
            decreases self.namespaces@.len() - i,
        {
            if self.namespaces[i].0 == file_index && str_eq(self.namespaces[i].1.as_str(), name) {
                return Some(i);
            }
            i = i + 1;
        }
        None
    }

    /// The scanned file whose path equals `path` (by components).
    fn file_with_path(&self, path: &str) -> (r: Option<usize>)
        ensures
            first_index(r, self.files@.len() as int, |i: int| path_components(self.files@[i].path@) == path_components(path@)),
            r == file_index_with(self.files@, path@, 0),
    {
        let mut i: usize = 0;
        while i < self.files.len()
            invariant
                i <= self.files@.len(),
                forall|j: int| 0 <= j < i ==> path_components(self.files@[j].path@) != path_components(path@),
                file_index_with(self.files@, path@, 0) == file_index_with(self.files@, path@, i as int),
            decreases self.files@.len() - i,
        {
            if same_path(self.files[i].path.as_str(), path) {
                return Some(i);
            }
            i = i + 1;
        }
        None
    }
}

/// The file-name extensions an extension-less import path is tried with.
pub open spec fn import_extensions() -> Seq<Seq<char>> {
    seq!["ts"@, "tsx"@, "mts"@, "cts"@, "js"@, "jsx"@, "mjs"@, "cjs"@, "py"@, "pyw"@]
}

/// `s` is the first symbol whose qualified name is `owner.method`.
pub open spec fn first_member(symbols: Seq<GraphSymbol>, owner: Seq<char>, method: Seq<char>, s: int) -> bool {
    &&& 0 <= s < symbols.len()
    &&& symbols[s].qualified_name@ == owner + seq!['.'] + method
    &&& forall|j: int| 0 <= j < s ==> (#[trigger] symbols[j]).qualified_name@ != owner + seq!['.'] + method
}

/// The first fact, from `j` on, about class `name`; with `same`, only the
/// facts from file `cf` count.
pub open spec fn pick_from(h: Seq<ClassInfo>, name: Seq<char>, cf: usize, same: bool, j: int) -> Option<int>
    decreases h.len() - j,
{
    if j < 0 || j >= h.len() {
        None
    } else if h[j].name@ == name && (!same || h[j].file_index == cf) {
        Some(j)
    } else {
        pick_from(h, name, cf, same, j + 1)
    }
}

/// The fact about class `name` that a call from file `cf` consults: the
/// first from that file, else the first anywhere.
pub open spec fn class_pick(h: Seq<ClassInfo>, name: Seq<char>, cf: usize) -> Option<int> {
    if pick_from(h, name, cf, true, 0) is Some {
        pick_from(h, name, cf, true, 0)
    } else {
        pick_from(h, name, cf, false, 0)
    }
}

/// The first symbol, from `j` on, whose qualified name is `owner.method`.
pub open spec fn member_from(symbols: Seq<GraphSymbol>, owner: Seq<char>, method: Seq<char>, j: int) -> Option<int>
    decreases symbols.len() - j,
{
    if j < 0 || j >= symbols.len() {
        None
    } else if symbols[j].qualified_name@ == owner + seq!['.'] + method {
        Some(j)
    } else {
        member_from(symbols, owner, method, j + 1)
    }
}

/// The member `method` of the first interface, from `k` on, that has one.
pub open spec fn interface_member_from(
    symbols: Seq<GraphSymbol>,
    interfaces: Seq<Seq<char>>,
    method: Seq<char>,
    k: int,
) -> Option<int>
    decreases interfaces.len() - k,
{
    if k < 0 || k >= interfaces.len() {
        None
    } else if member_from(symbols, interfaces[k], method, 0) is Some {
        member_from(symbols, interfaces[k], method, 0)
    } else {
        interface_member_from(symbols, interfaces, method, k + 1)
    }
}

/// The walk up the class chain from `current` for a call from file `cf`:
/// the consulted fact's superclass member `method`, else the member of the
/// first implemented interface that has one, else the same from the
/// superclass; it stops at a class already walked (`chain`), at a class
/// without facts and at the top of the chain. `u` bounds the names walked.
pub open spec fn chain_walk(
    h: Seq<ClassInfo>,
    symbols: Seq<GraphSymbol>,
    current: Seq<char>,
    method: Seq<char>,
    cf: usize,
    chain: Seq<Seq<char>>,
    u: Set<Seq<char>>,
) -> Option<int>
    decreases u.difference(chain.to_set()).len(),
{
    if !u.finite() || !u.contains(current) || chain.contains(current) {
        None
    } else {
        match class_pick(h, current, cf) {
            None => None,
            Some(ii) => {
                let info = h[ii];
                let from_super = match info.extends {
                    Some(sup) => member_from(symbols, sup@, method, 0),
                    None => None,
                };
                let from_interface = interface_member_from(symbols, names_of(info.implements@), method, 0);
                if from_super is Some {
                    from_super
                } else if from_interface is Some {
                    from_interface
                } else {
                    match info.extends {
                        Some(sup) => {
                            proof {
                                lemma_remaining_push(u, chain, chain.push(current), current);
                            }
                            chain_walk(h, symbols, sup@, method, cf, chain.push(current), u)
                        },
                        None => None,
                    }
                }
            },
        }
    }
}

/// The type's own `method` (the first symbol named `ty.method`), if any,
/// has no body.
pub open spec fn no_own_body(symbols: Seq<GraphSymbol>, files: Seq<IndexedFile>, ty: Seq<char>, method: Seq<char>) -> bool {
    forall|s: int|
        #![trigger first_member(symbols, ty, method, s)]
        first_member(symbols, ty, method, s) ==> !has_body_at(files[symbols[s].file_index as int], symbols[s].start_byte)
}

/// The fact `i` is the first about class `name`, counting only those from
/// file `cf` when `same`.
pub open spec fn first_fact(h: Seq<ClassInfo>, name: Seq<char>, cf: usize, same: bool, i: int) -> bool {
    &&& 0 <= i < h.len() && h[i].name@ == name && (!same || h[i].file_index == cf)
    &&& forall|j: int| 0 <= j < i ==> !((#[trigger] h[j]).name@ == name && (!same || h[j].file_index == cf))
}

proof fn lemma_class_pick(h: Seq<ClassInfo>, name: Seq<char>, cf: usize, r: Option<usize>)
    requires
        (exists|j: int| 0 <= j < h.len() && #[trigger] h[j].name@ == name && h[j].file_index == cf) ==> (r matches Some(i)
            && first_fact(h, name, cf, true, i as int)),
        !(exists|j: int| 0 <= j < h.len() && #[trigger] h[j].name@ == name && h[j].file_index == cf) ==> match r {
            Some(i) => first_fact(h, name, cf, false, i as int),
            None => forall|j: int| 0 <= j < h.len() ==> (#[trigger] h[j]).name@ != name,
        },
    ensures
        r matches Some(i) ==> class_pick(h, name, cf) == Some(i as int),
        r is None ==> class_pick(h, name, cf) is None,
{
    lemma_pick_from(h, name, cf, true, 0);
    lemma_pick_from(h, name, cf, false, 0);
    if exists|j: int| 0 <= j < h.len() && #[trigger] h[j].name@ == name && h[j].file_index == cf {
        let w = choose|j: int| 0 <= j < h.len() && #[trigger] h[j].name@ == name && h[j].file_index == cf;
        let i = r->0 as int;
        match pick_from(h, name, cf, true, 0) {
            Some(p) => {
                if i < p {
                    assert(h[i].name@ == name && h[i].file_index == cf);
                }
                if p < i {
                    assert(!(h[p].name@ == name && h[p].file_index == cf));
                }
            },
            None => {
                assert(h[w].name@ == name && h[w].file_index == cf);
            },
        }
    } else {
        match pick_from(h, name, cf, true, 0) {
            Some(p) => {
                assert(h[p].name@ == name && h[p].file_index == cf);
            },
            None => {},
        }
        match pick_from(h, name, cf, false, 0) {
            Some(p) => {
                match r {
                    Some(i) => {
                        if (i as int) < p {
                            assert(h[i as int].name@ == name);
                        }
                        if p < i {
                            assert(!(h[p].name@ == name));
                        }
                    },
                    None => {
                        assert(h[p].name@ == name);
                    },
                }
            },
            None => {
                match r {
                    Some(i) => {
                        assert(h[i as int].name@ == name);
                    },
                    None => {},
                }
            },
        }
    }
}

proof fn lemma_member_pick(symbols: Seq<GraphSymbol>, owner: Seq<char>, method: Seq<char>, r: Option<usize>)
    requires
        first_index(r, symbols.len() as int, |i: int| symbols[i].qualified_name@ == owner + seq!['.'] + method),
    ensures
        r matches Some(i) ==> member_from(symbols, owner, method, 0) == Some(i as int),
        r is None ==> member_from(symbols, owner, method, 0) is None,
{
    lemma_member_from(symbols, owner, method, 0);
    let pred = |i: int| symbols[i].qualified_name@ == owner + seq!['.'] + method;
    match member_from(symbols, owner, method, 0) {
        Some(p) => {
            match r {
                Some(i) => {
                    if (i as int) < p {
                        assert(pred(i as int));
                    }
                    if p < i {
                        assert(!pred(p));
                    }
                },
                None => {
                    assert(!pred(p));
                },
            }
        },
        None => {
            match r {
                Some(i) => {
                    assert(pred(i as int));
                },
                None => {},
            }
        },
    }
}

/// Every name in `a` is also in `b`.
pub open spec fn keeps_names(a: Seq<Seq<char>>, b: Seq<Seq<char>>) -> bool {
    forall|x: Seq<char>| a.contains(x) ==> b.contains(x)
}

pub proof fn lemma_fewer_left(u: Set<Seq<char>>, a: Seq<Seq<char>>, b: Seq<Seq<char>>)
    requires
        u.finite(),
        keeps_names(a, b),
    ensures
        u.difference(b.to_set()).len() <= u.difference(a.to_set()).len(),
{
    assert(u.difference(b.to_set()).subset_of(u.difference(a.to_set())));
    vstd::set_lib::lemma_len_subset(u.difference(b.to_set()), u.difference(a.to_set()));
}

/// The type's own `method` (the first symbol named `ty.method`), when its
/// declaration has a body.
pub open spec fn own_body_pick(symbols: Seq<GraphSymbol>, files: Seq<IndexedFile>, ty: Seq<char>, method: Seq<char>) -> Option<int> {
    match member_from(symbols, ty, method, 0) {
        Some(s) => if has_body_at(files[symbols[s].file_index as int], symbols[s].start_byte) {
            Some(s)
        } else {
            None
        },
        None => None,
    }
}

/// What a call of `method` on a receiver of type `ty`, from file `cf`,
/// resolves to through the type hierarchy, with the interfaces already
/// searched for implementations (`searched`), and those searched after it:
/// the type's own method with a body, else what the walk up its class
/// chain finds, else an implementation of the type (see `impl_search`).
/// `u` bounds the type names.
pub open spec fn typed_search(
    h: Seq<ClassInfo>,
    symbols: Seq<GraphSymbol>,
    files: Seq<IndexedFile>,
    ty: Seq<char>,
    method: Seq<char>,
    cf: usize,
    searched: Seq<Seq<char>>,
    u: Set<Seq<char>>,
) -> (Option<int>, Seq<Seq<char>>)
    decreases u.difference(searched.to_set()).len(), 1int, 0int,
{
    if own_body_pick(symbols, files, ty, method) is Some {
        (own_body_pick(symbols, files, ty, method), searched)
    } else if chain_walk(h, symbols, ty, method, cf, seq![], u) is Some {
        (chain_walk(h, symbols, ty, method, cf, seq![], u), searched)
    } else {
        impl_search(h, symbols, files, ty, method, searched, u)
    }
}

/// An implementation of `interface`: unless it was already searched, the
/// class facts implementing it are tried in order (see `impl_from`).
pub open spec fn impl_search(
    h: Seq<ClassInfo>,
    symbols: Seq<GraphSymbol>,
    files: Seq<IndexedFile>,
    interface: Seq<char>,
    method: Seq<char>,
    searched: Seq<Seq<char>>,
    u: Set<Seq<char>>,
) -> (Option<int>, Seq<Seq<char>>)
    decreases u.difference(searched.to_set()).len(), 0int, 0int,
{
    if !u.finite() || !u.contains(interface) || searched.contains(interface) {
        (None, searched)
    } else {
        proof {
            crate::taint_walk::lemma_remaining_push(u, searched, searched.push(interface), interface);
        }
        impl_from(h, symbols, files, interface, method, 0, searched.push(interface), u)
    }
}

/// The class facts from `k` on that implement `interface`, in order: the
/// class's own `method`, else what a typed call on its superclass finds
/// (from the class's file); the first found is the result.
pub open spec fn impl_from(
    h: Seq<ClassInfo>,
    symbols: Seq<GraphSymbol>,
    files: Seq<IndexedFile>,
    interface: Seq<char>,
    method: Seq<char>,
    k: int,
    searched: Seq<Seq<char>>,
    u: Set<Seq<char>>,
) -> (Option<int>, Seq<Seq<char>>)
    decreases u.difference(searched.to_set()).len(), 2int, h.len() - k,
{
    if k < 0 || k >= h.len() || !u.finite() {
        (None, searched)
    } else if !names_of(h[k].implements@).contains(interface) {
        impl_from(h, symbols, files, interface, method, k + 1, searched, u)
    } else if member_from(symbols, h[k].name@, method, 0) is Some {
        (member_from(symbols, h[k].name@, method, 0), searched)
    } else {
        match h[k].extends {
            None => impl_from(h, symbols, files, interface, method, k + 1, searched, u),
            Some(sup) => {
                let (r, after) = typed_search(h, symbols, files, sup@, method, h[k].file_index, searched, u);
                let next = if keeps_names(searched, after) {
                    after
                } else {
                    searched
                };
                if r is Some {
                    (r, next)
                } else {
                    proof {
                        lemma_fewer_left(u, searched, next);
                    }
                    impl_from(h, symbols, files, interface, method, k + 1, next, u)
                }
            },
        }
    }
}

/// An index as an integer.
pub open spec fn opt_int(r: Option<usize>) -> Option<int> {
    match r {
        Some(i) => Some(i as int),
        None => None,
    }
}

proof fn lemma_pick_from(h: Seq<ClassInfo>, name: Seq<char>, cf: usize, same: bool, j: int)
    requires
        0 <= j,
    ensures
        pick_from(h, name, cf, same, j) matches Some(i) ==> j <= i < h.len() && h[i].name@ == name && (!same
            || h[i].file_index == cf) && forall|m: int| j <= m < i ==> !(h[m].name@ == name && (!same || h[m].file_index == cf)),
        pick_from(h, name, cf, same, j) is None ==> forall|m: int|
            j <= m < h.len() ==> !(h[m].name@ == name && (!same || h[m].file_index == cf)),
    decreases h.len() - j,
{
    if j < h.len() {
        lemma_pick_from(h, name, cf, same, j + 1);
    }
}

proof fn lemma_member_from(symbols: Seq<GraphSymbol>, owner: Seq<char>, method: Seq<char>, j: int)
    requires
        0 <= j,
    ensures
        member_from(symbols, owner, method, j) matches Some(i) ==> j <= i < symbols.len() && symbols[i].qualified_name@
            == owner + seq!['.'] + method && forall|m: int| j <= m < i ==> symbols[m].qualified_name@ != owner + seq!['.'] + method,
        member_from(symbols, owner, method, j) is None ==> forall|m: int|
            j <= m < symbols.len() ==> symbols[m].qualified_name@ != owner + seq!['.'] + method,
    decreases symbols.len() - j,
{
    if j < symbols.len() {
        lemma_member_from(symbols, owner, method, j + 1);
    }
}

/// The class fact `c` implements `interface`, and some symbol is its
/// member `method`.
pub open spec fn implements_with_member(symbols: Seq<GraphSymbol>, c: ClassInfo, interface: Seq<char>, method: Seq<char>) -> bool {
    &&& names_of(c.implements@).contains(interface)
    &&& exists|s: int| 0 <= s < symbols.len() && (#[trigger] symbols[s]).qualified_name@ == c.name@ + seq!['.'] + method
}

proof fn lemma_member_ends(q: Seq<char>, owner: Seq<char>, method: Seq<char>)
    requires
        q == owner + seq!['.'] + method,
    ensures
        ends_with_member(q, method),
{
    assert(q.subrange(q.len() - method.len() - 1, q.len() as int) =~= seq!['.'] + method);
}

/// The `k`th extension an extension-less import path is tried with.
fn import_extension(k: usize) -> (r: &'static str)
    requires
        k < 10,
    ensures
        r@ == import_extensions()[k as int],
{
    match k {
        0 => "ts",
        1 => "tsx",
        2 => "mts",
        3 => "cts",
        4 => "js",
        5 => "jsx",
        6 => "mjs",
        7 => "cjs",
        8 => "py",
        _ => "pyw",
    }
}

/// The paths an import path is tried as: itself when it has an extension;
/// otherwise, for each known extension, `p.ext` and then `p/index.ext`.
pub open spec fn import_candidates(import_path: Seq<char>) -> Seq<Seq<char>> {
    if spec_extension(encode_utf8(import_path)) is Some {
        seq![import_path]
    } else {
        Seq::new(
            20,
            |j: int|
                if j % 2 == 0 {
                    import_path + "."@ + import_extensions()[j / 2]
                } else {
                    import_path + "/index."@ + import_extensions()[j / 2]
                },
        )
    }
}

/// The first of `files`, from `k` on, whose path is `path` by components.
pub open spec fn file_index_with(files: Seq<IndexedFile>, path: Seq<char>, k: int) -> Option<usize>
    decreases files.len() - k,
{
    if k < 0 || k >= files.len() {
        None
    } else if path_components(files[k].path@) == path_components(path) {
        Some(k as usize)
    } else {
        file_index_with(files, path, k + 1)
    }
}

/// The file of the first candidate, joined to `parent`, that is scanned.
pub open spec fn first_candidate(files: Seq<IndexedFile>, parent: Seq<char>, cands: Seq<Seq<char>>) -> Option<usize>
    decreases cands.len(),
{
    if cands.len() == 0 {
        None
    } else {
        let prev = first_candidate(files, parent, cands.drop_last());
        if prev is Some {
            prev
        } else {
            file_index_with(files, spec_join(parent, cands.last()), 0)
        }
    }
}

proof fn lemma_first_candidate_prefix(files: Seq<IndexedFile>, parent: Seq<char>, cands: Seq<Seq<char>>, k: int)
    requires
        0 <= k <= cands.len(),
        first_candidate(files, parent, cands.subrange(0, k)) is Some,
    ensures
        first_candidate(files, parent, cands) == first_candidate(files, parent, cands.subrange(0, k)),
    decreases cands.len() - k,
{
    if k < cands.len() {
        let sub = cands.subrange(0, k + 1);
        assert(sub.drop_last() =~= cands.subrange(0, k));
        lemma_first_candidate_prefix(files, parent, cands, k + 1);
    } else {
        assert(cands.subrange(0, k) =~= cands);
    }
}

/// The first of `files`, from `k` on, that lies in directory `parent` and
/// has file stem `stem`.
pub open spec fn stem_sibling(files: Seq<IndexedFile>, parent: Seq<char>, stem: Seq<u8>, k: int) -> Option<usize>
    decreases files.len() - k,
{
    if k < 0 || k >= files.len() {
        None
    } else if (path_parent(files[k].path@) matches Some(p) && path_components(p) == path_components(parent))
        && spec_file_stem(encode_utf8(files[k].path@)) == Some(stem) {
        Some(k as usize)
    } else {
        stem_sibling(files, parent, stem, k + 1)
    }
}

/// The scanned file an import of `import_path` from `caller` names: the
/// first candidate path next to the caller that is scanned, else a file of
/// the same stem in the caller's directory.
pub open spec fn import_target(files: Seq<IndexedFile>, caller: Seq<char>, import_path: Seq<char>) -> Option<usize> {
    match path_parent(caller) {
        None => None,
        Some(parent) => {
            let direct = first_candidate(files, parent, import_candidates(import_path));
            if direct is Some {
                direct
            } else {
                match spec_file_stem(encode_utf8(import_path)) {
                    None => None,
                    Some(stem) => stem_sibling(files, parent, stem, 0),
                }
            }
        },
    }
}

impl CodeGraph {
    /// Maps an import path to a scanned file: the path itself when it has an
    /// extension, else with each known extension and as a directory index;
    /// then a file of the same stem next to the importing file.
    fn resolve_import_target(&self, caller_path: &str, import_path: &str) -> (r: Option<usize>)
        ensures
            r matches Some(i) ==> i < self.files@.len(),
            r == import_target(self.files@, caller_path@, import_path@),
    {
        let parent = match parent_path(caller_path) {
            Some(p) => p,
            None => {
                return None;
            },
        };
        let ghost cands = import_candidates(import_path@);
        let mut candidates: Vec<String> = Vec::new();
        if extension_range(import_path.as_bytes()).is_some() {
            candidates.push(import_path.to_string());
            assert(names_of(candidates@) =~= cands);
        } else {
            let mut k: usize = 0;
            proof {
                assert(names_of(candidates@) =~= cands.subrange(0, 0));
            }
            while k < 10
                invariant
                    k <= 10,
                    candidates@.len() == 2 * k,
                    cands == import_candidates(import_path@),
                    spec_extension(encode_utf8(import_path@)) is None,
                    names_of(candidates@) == cands.subrange(0, 2 * k),
                decreases 10 - k,
            {
                let ext = import_extension(k);
                let mut plain = import_path.to_string();
                push_str(&mut plain, ".");
                push_str(&mut plain, ext);
                candidates.push(plain);
                let mut index = import_path.to_string();
                push_str(&mut index, "/index.");
                push_str(&mut index, ext);
                candidates.push(index);
                proof {
                    assert((2 * k) % 2 == 0 && (2 * k) / 2 == k as int);
                    assert((2 * k + 1) % 2 == 1 && (2 * k + 1) / 2 == k as int);
                    assert(cands[2 * k] == import_path@ + "."@ + import_extensions()[k as int]);
                    assert(cands[2 * k + 1] == import_path@ + "/index."@ + import_extensions()[k as int]);
                    assert(names_of(candidates@) =~= cands.subrange(0, 2 * k + 2));
                }
                k = k + 1;
            }
            assert(cands.subrange(0, 20) =~= cands);
        }
        let mut c: usize = 0;
        proof {
            assert(cands.subrange(0, 0) =~= Seq::<Seq<char>>::empty());
        }
        while c < candidates.len()
            invariant
                c <= candidates@.len(),
                names_of(candidates@) == cands,
                first_candidate(self.files@, parent@, cands.subrange(0, c as int)) is None,
                path_parent(caller_path@) == Some(parent@),
                cands == import_candidates(import_path@),
            decreases candidates@.len() - c,
        {
            proof {
                let sub = cands.subrange(0, c + 1);
                assert(sub.drop_last() =~= cands.subrange(0, c as int));
                assert(sub.last() == candidates@[c as int]@);
            }
            let full = join_path(parent.as_str(), candidates[c].as_str());
            match self.file_with_path(full.as_str()) {
                Some(i) => {
                    proof {
                        lemma_first_candidate_prefix(self.files@, parent@, cands, c + 1);
                    }
                    return Some(i);
                },
                None => {},
            }
            c = c + 1;
        }
        proof {
            assert(cands.subrange(0, candidates@.len() as int) =~= cands);
        }
        let ib = import_path.as_bytes();
        let stem = match file_stem_range(ib) {
            Some((a, b)) => vstd::slice::slice_subrange(ib, a, b),
            None => {
                return None;
            },
        };
        let mut i: usize = 0;
        while i < self.files.len()
            invariant
                i <= self.files@.len(),
                spec_file_stem(encode_utf8(import_path@)) == Some(stem@),
                stem_sibling(self.files@, parent@, stem@, 0) == stem_sibling(self.files@, parent@, stem@, i as int),
                path_parent(caller_path@) == Some(parent@),
                first_candidate(self.files@, parent@, import_candidates(import_path@)) is None,
            decreases self.files@.len() - i,
        {
            let path = self.files[i].path.as_str();
            let in_parent = match parent_path(path) {
                Some(p) => same_path(p.as_str(), parent.as_str()),
                None => false,
            };
            if in_parent {
                let pb = path.as_bytes();
                match file_stem_range(pb) {
                    Some((a, b)) => {
                        if crate::text::slices_equal(vstd::slice::slice_subrange(pb, a, b), stem) {
                            return Some(i);
                        }
                    },
                    None => {},
                }
            }
            i = i + 1;
        }
        None
    }
}

/// The superclass names the hierarchy mentions, in order.
pub open spec fn extends_names(h: Seq<ClassInfo>) -> Seq<Seq<char>>
    decreases h.len(),
{
    if h.len() == 0 {
        Seq::empty()
    } else {
        let prev = extends_names(h.drop_last());
        match h.last().extends {
            Some(s) => prev.push(s@),
            None => prev,
        }
    }
}

proof fn lemma_extends_names(h: Seq<ClassInfo>, i: int)
    requires
        0 <= i < h.len(),
        h[i].extends is Some,
    ensures
        extends_names(h).contains(h[i].extends->0@),
    decreases h.len(),
{
    let prev = extends_names(h.drop_last());
    if i < h.len() - 1 {
        lemma_extends_names(h.drop_last(), i);
        let j = prev.index_of(h[i].extends->0@);
        match h.last().extends {
            Some(s) => {
                assert(prev.push(s@)[j] == h[i].extends->0@);
            },
            None => {},
        }
    } else {
        assert(prev.push(h[i].extends->0@)[prev.len() as int] == h[i].extends->0@);
    }
}

/// Every type name a hierarchy walk started at `root` can reach.
pub open spec fn type_universe(h: Seq<ClassInfo>, root: Seq<char>) -> Set<Seq<char>> {
    extends_names(h).push(root).to_set()
}

proof fn lemma_universe(h: Seq<ClassInfo>, root: Seq<char>)
    ensures
        type_universe(h, root).finite(),
        type_universe(h, root).contains(root),
        forall|i: int| 0 <= i < h.len() && (#[trigger] h[i]).extends is Some ==> type_universe(h, root).contains(h[i].extends->0@),
{
    let s = extends_names(h).push(root);
    vstd::seq_lib::seq_to_set_is_finite(s);
    assert(s[s.len() - 1] == root);
    assert forall|i: int| 0 <= i < h.len() && (#[trigger] h[i]).extends is Some implies type_universe(h, root).contains(h[i].extends->0@) by {
        lemma_extends_names(h, i);
        let j = extends_names(h).index_of(h[i].extends->0@);
        assert(s[j] == h[i].extends->0@);
    }
}

/// Marking more names as visited never leaves more names to visit.
proof fn lemma_visited_grows(u: Set<Seq<char>>, a: Seq<Seq<char>>, b: Seq<Seq<char>>)
    requires
        u.finite(),
        forall|x: Seq<char>| a.contains(x) ==> b.contains(x),
    ensures
        u.difference(b.to_set()).len() <= u.difference(a.to_set()).len(),
{
    vstd::set::axiom_set_difference_finite(u, a.to_set());
    assert(u.difference(b.to_set()).subset_of(u.difference(a.to_set())));
    vstd::set_lib::lemma_len_subset(u.difference(b.to_set()), u.difference(a.to_set()));
}

impl CodeGraph {
    /// Symbols sit in the graph's files, and every file's tree leaves room
    /// for 1-based positions.
    pub open spec fn symbols_ok(&self) -> bool {
        &&& forall|i: int| 0 <= i < self.symbols@.len() ==> symbol_in_files(#[trigger] self.symbols@[i], self.files@)
        &&& forall|i: int| 0 <= i < self.files@.len() ==> positions_fit((#[trigger] self.files@[i]).tree.root)
    }

    /// Whether the declaration of symbol `index` has a body (interface and
    /// abstract declarations have none).
    fn symbol_has_body(&self, index: usize) -> (r: bool)
        requires
            self.symbols_ok(),
            index < self.symbols@.len(),
        ensures
            r == has_body_at(
                self.files@[self.symbols@[index as int].file_index as int],
                self.symbols@[index as int].start_byte,
            ),
    {
        let symbol = &self.symbols[index];
        assert(symbol_in_files(self.symbols@[index as int], self.files@));
        let file = &self.files[symbol.file_index];
        match file.method_node_at_byte(symbol.start_byte) {
            None => false,
            Some(node) => {
                let mut k: usize = 0;
                while k < node.children.len()
                    invariant
                        k <= node.children@.len(),
                        forall|j: int| 0 <= j < k ==> !spec_body_kind(#[trigger] node.children@[j].kind@),
                        *symbol == self.symbols@[index as int],
                        *file == self.files@[symbol.file_index as int],
                        file.tree.root.start_byte <= symbol.start_byte < file.tree.root.end_byte,
                        method_holding(file.tree.root, symbol.start_byte, file.language) == Some(*node),
                    decreases node.children@.len() - k,
                {
                    let kind = node.children[k].kind.as_str();
                    if str_eq(kind, "block") || str_eq(kind, "statement_block") {
                        assert(spec_body_kind(node.children@[k as int].kind@));
                        return true;
                    }
                    k = k + 1;
                }
                false
            },
        }
    }

    /// The hierarchy entry for class `name`: the first one in `caller_file`
    /// when there is one there, else the first one.
    fn class_info(&self, name: &str, caller_file: usize) -> (r: Option<usize>)
        ensures
            r matches Some(i) ==> i < self.hierarchy@.len() && self.hierarchy@[i as int].name@ == name@,
            (exists|j: int| 0 <= j < self.hierarchy@.len() && #[trigger] self.hierarchy@[j].name@ == name@
                && self.hierarchy@[j].file_index == caller_file) ==> first_index(
                r,
                self.hierarchy@.len() as int,
                |j: int| self.hierarchy@[j].name@ == name@ && self.hierarchy@[j].file_index == caller_file,
            ),
            !(exists|j: int| 0 <= j < self.hierarchy@.len() && #[trigger] self.hierarchy@[j].name@ == name@
                && self.hierarchy@[j].file_index == caller_file) ==> first_index(
                r,
                self.hierarchy@.len() as int,
                |j: int| self.hierarchy@[j].name@ == name@,
            ),
    {
        let ghost h = self.hierarchy@;
        let mut first: Option<usize> = None;
        let mut same_file: Option<usize> = None;
        let mut i: usize = 0;
        while i < self.hierarchy.len()
            invariant
                i <= self.hierarchy@.len(),
                h == self.hierarchy@,
                first matches Some(f) ==> f < self.hierarchy@.len() && self.hierarchy@[f as int].name@ == name@,
                same_file matches Some(f) ==> f < self.hierarchy@.len() && self.hierarchy@[f as int].name@ == name@,
                first_index(first, i as int, |j: int| h[j].name@ == name@),
                first_index(same_file, i as int, |j: int| h[j].name@ == name@ && h[j].file_index == caller_file),
                same_file is None ==> forall|j: int| 0 <= j < i ==> !(#[trigger] h[j].name@ == name@ && h[j].file_index == caller_file),
            decreases self.hierarchy@.len() - i,
        {
            if str_eq(self.hierarchy[i].name.as_str(), name) {
                if first.is_none() {
                    first = Some(i);
                }
                if same_file.is_none() && self.hierarchy[i].file_index == caller_file {
                    same_file = Some(i);
                }
            }
            i = i + 1;
        }
        proof {
            if exists|j: int| 0 <= j < h.len() && #[trigger] h[j].name@ == name@ && h[j].file_index == caller_file {
                let j = choose|j: int| 0 <= j < h.len() && #[trigger] h[j].name@ == name@ && h[j].file_index == caller_file;
                assert(same_file is Some);
            }
        }
        match same_file {
            Some(f) => Some(f),
            None => first,
        }
    }

    /// Resolves `ty.method` through the hierarchy: the type's own method
    /// when it has a body, then the superclass chain, then implemented
    /// interfaces, then classes implementing `ty`. `visited` holds the
    /// interfaces already searched for implementations.
    fn resolve_typed(
        &self,
        ty: &str,
        method: &str,
        caller_file: usize,
        visited: &mut Vec<String>,
        Ghost(root): Ghost<Seq<char>>,
    ) -> (r: Option<usize>)
        requires
            self.symbols_ok(),
            type_universe(self.hierarchy@, root).contains(ty@),
        ensures
            r matches Some(i) ==> i < self.symbols@.len(),
            forall|x: Seq<char>| names_of(old(visited)@).contains(x) ==> names_of(final(visited)@).contains(x),
            r matches Some(i) ==> ends_with_member(self.symbols@[i as int].qualified_name@, method@),
            forall|s: int|
                #![trigger first_member(self.symbols@, ty@, method@, s)]
                first_member(self.symbols@, ty@, method@, s) && has_body_at(
                    self.files@[self.symbols@[s].file_index as int],
                    self.symbols@[s].start_byte,
                ) ==> r == Some(s as usize),
            no_own_body(self.symbols@, self.files@, ty@, method@) ==> (chain_walk(
                self.hierarchy@,
                self.symbols@,
                ty@,
                method@,
                caller_file,
                seq![],
                type_universe(self.hierarchy@, root),
            ) matches Some(i) ==> r == Some(i as usize)),
            no_own_body(self.symbols@, self.files@, ty@, method@) && chain_walk(
                self.hierarchy@,
                self.symbols@,
                ty@,
                method@,
                caller_file,
                seq![],
                type_universe(self.hierarchy@, root),
            ) is None && !names_of(old(visited)@).contains(ty@) ==> forall|i: int|
                #![trigger first_implementor(self.hierarchy@, ty@, i)]
                first_implementor(self.hierarchy@, ty@, i) ==> (member_from(self.symbols@, self.hierarchy@[i].name@, method@, 0) matches Some(
                    m,
                ) ==> r == Some(m as usize)),
            (opt_int(r), names_of(final(visited)@)) == typed_search(
                self.hierarchy@,
                self.symbols@,
                self.files@,
                ty@,
                method@,
                caller_file,
                names_of(old(visited)@),
                type_universe(self.hierarchy@, root),
            ),
        decreases type_universe(self.hierarchy@, root).difference(names_of(old(visited)@).to_set()).len(), 1int,
    {
        let ghost u = type_universe(self.hierarchy@, root);
        proof {
            lemma_universe(self.hierarchy@, root);
        }
        let own = self.member_index(ty, method);
        proof {
            lemma_member_pick(self.symbols@, ty@, method@, own);
        }
        match own {
            Some(index) => {
                proof {
                    lemma_member_ends(self.symbols@[index as int].qualified_name@, ty@, method@);
                }
                if self.symbol_has_body(index) {
                    proof {
                        assert forall|s: int|
                            #![trigger first_member(self.symbols@, ty@, method@, s)]
                            first_member(self.symbols@, ty@, method@, s) implies s == index as int by {
                            if s < index {
                                assert((|i: int| self.symbols@[i].qualified_name@ == ty@ + seq!['.'] + method@)(s));
                            }
                            if index < s {
                                assert(self.symbols@[index as int].qualified_name@ != ty@ + seq!['.'] + method@);
                            }
                        }
                    }
                    proof {
                        assert forall|j: int| 0 <= j < index implies (#[trigger] self.symbols@[j]).qualified_name@ != ty@ + seq!['.']
                            + method@ by {
                            assert(!(|i: int| self.symbols@[i].qualified_name@ == ty@ + seq!['.'] + method@)(j));
                        }
                        assert(first_member(self.symbols@, ty@, method@, index as int));
                        assert(own_body_pick(self.symbols@, self.files@, ty@, method@) == Some(index as int));
                    }
                    return Some(index);
                }
                proof {
                    assert forall|s: int|
                        #![trigger first_member(self.symbols@, ty@, method@, s)]
                        first_member(self.symbols@, ty@, method@, s) implies !has_body_at(
                        self.files@[self.symbols@[s].file_index as int],
                        self.symbols@[s].start_byte,
                    ) by {
                        if s < index {
                            assert((|i: int| self.symbols@[i].qualified_name@ == ty@ + seq!['.'] + method@)(s));
                        }
                        if index < s {
                            assert(self.symbols@[index as int].qualified_name@ != ty@ + seq!['.'] + method@);
                        }
                    }
                }
            },
            None => {
                proof {
                    assert forall|s: int|
                        #![trigger first_member(self.symbols@, ty@, method@, s)]
                        first_member(self.symbols@, ty@, method@, s) implies false by {
                        assert((|i: int| self.symbols@[i].qualified_name@ == ty@ + seq!['.'] + method@)(s));
                    }
                }
            },
        }
        let mut chain: Vec<String> = Vec::new();
        let mut current: String = ty.to_string();
        let ghost h = self.hierarchy@;
        let ghost syms = self.symbols@;
        let ghost walk = chain_walk(h, syms, ty@, method@, caller_file, seq![], u);
        proof {
            assert(names_of(chain@) =~= Seq::<Seq<char>>::empty());
        }
        loop
            invariant_except_break
                walk == chain_walk(h, syms, current@, method@, caller_file, names_of(chain@), u),
            invariant
                self.symbols_ok(),
                h == self.hierarchy@,
                syms == self.symbols@,
                walk == chain_walk(h, syms, ty@, method@, caller_file, seq![], u),
                own_body_pick(self.symbols@, self.files@, ty@, method@) is None,
                u == type_universe(self.hierarchy@, root),
                u.finite(),
                forall|i: int| 0 <= i < self.hierarchy@.len() && (#[trigger] self.hierarchy@[i]).extends is Some ==> u.contains(self.hierarchy@[i].extends->0@),
                u.contains(current@),
                *visited == *old(visited),
                forall|s: int|
                    #![trigger first_member(self.symbols@, ty@, method@, s)]
                    first_member(self.symbols@, ty@, method@, s) ==> !has_body_at(
                        self.files@[self.symbols@[s].file_index as int],
                        self.symbols@[s].start_byte,
                    ),
            ensures
                walk is None,
            decreases u.difference(names_of(chain@).to_set()).len(),
        {
            if chain_contains(&chain, current.as_str()) {
                assert(walk is None);
                break;
            }
            let ghost before = names_of(chain@);
            let ghost cur = current@;
            chain.push(current.clone());
            proof {
                assert(names_of(chain@) =~= before.push(current@));
                lemma_remaining_push(u, before, names_of(chain@), current@);
            }
            let cs = current.as_str();
            let picked = self.class_info(cs, caller_file);
            proof {
                let hh = self.hierarchy@;
                let same = |j: int| self.hierarchy@[j].name@ == cs@ && self.hierarchy@[j].file_index == caller_file;
                let any = |j: int| self.hierarchy@[j].name@ == cs@;
                if exists|j: int| 0 <= j < hh.len() && #[trigger] hh[j].name@ == cs@ && hh[j].file_index == caller_file {
                    let w = choose|j: int| 0 <= j < hh.len() && #[trigger] hh[j].name@ == cs@ && hh[j].file_index == caller_file;
                    assert(same(w));
                    assert(picked is Some);
                    let i = picked->0 as int;
                    assert(same(i));
                    assert forall|j: int| 0 <= j < i implies !((#[trigger] hh[j]).name@ == cs@ && (!true || hh[j].file_index
                        == caller_file)) by {
                        assert(!same(j));
                    }
                } else {
                    match picked {
                        Some(i) => {
                            assert forall|j: int| 0 <= j < i implies !((#[trigger] hh[j]).name@ == cs@ && (!false
                                || hh[j].file_index == caller_file)) by {
                                assert(!any(j));
                            }
                        },
                        None => {
                            assert forall|j: int| 0 <= j < hh.len() implies (#[trigger] hh[j]).name@ != cs@ by {
                                assert(!any(j));
                            }
                        },
                    }
                }
                lemma_class_pick(hh, cs@, caller_file, picked);
                assert(cs@ == cur);
            }
            let info_index = match picked {
                Some(i) => i,
                None => {
                    assert(walk is None);
                    break;
                },
            };
            let info = &self.hierarchy[info_index];
            let ghost from_super = match h[info_index as int].extends {
                Some(sup) => member_from(syms, sup@, method@, 0),
                None => None,
            };
            let ghost from_interface = interface_member_from(syms, names_of(h[info_index as int].implements@), method@, 0);
            let mut k: usize = 0;
            match &info.extends {
                Some(superclass) => {
                    let found = self.member_index(superclass.as_str(), method);
                    proof {
                        lemma_member_pick(syms, superclass@, method@, found);
                    }
                    match found {
                        Some(index) => {
                            proof {
                                lemma_member_ends(self.symbols@[index as int].qualified_name@, superclass@, method@);
                                assert(walk == Some(index as int));
                            }
                            return Some(index);
                        },
                        None => {},
                    }
                },
                None => {},
            }
            while k < info.implements.len()
                invariant
                    k <= info.implements@.len(),
                    syms == self.symbols@,
                    from_super is None,
                    walk == (if from_interface is Some { from_interface } else { match h[info_index as int].extends {
                        Some(sup) => chain_walk(h, syms, sup@, method@, caller_file, before.push(cur), u),
                        None => None,
                    } }),
                    from_interface == interface_member_from(syms, names_of(info.implements@), method@, k as int),
                    info == h[info_index as int],
                    h == self.hierarchy@,
                    u == type_universe(self.hierarchy@, root),
                    walk == chain_walk(h, syms, ty@, method@, caller_file, seq![], u),
                    own_body_pick(self.symbols@, self.files@, ty@, method@) is None,
                    forall|s: int|
                        #![trigger first_member(self.symbols@, ty@, method@, s)]
                        first_member(self.symbols@, ty@, method@, s) ==> !has_body_at(
                            self.files@[self.symbols@[s].file_index as int],
                            self.symbols@[s].start_byte,
                        ),
                decreases info.implements@.len() - k,
            {
                let found = self.member_index(info.implements[k].as_str(), method);
                proof {
                    lemma_member_pick(syms, info.implements@[k as int]@, method@, found);
                    assert(names_of(info.implements@)[k as int] == info.implements@[k as int]@);
                }
                match found {
                    Some(index) => {
                        proof {
                            lemma_member_ends(self.symbols@[index as int].qualified_name@, info.implements@[k as int]@, method@);
                        }
                        proof {
                            assert(from_interface == Some(index as int));
                        }
                        return Some(index);
                    },
                    None => {},
                }
                k = k + 1;
            }
            match &info.extends {
                Some(superclass) => {
                    proof {
                        assert(self.hierarchy@[info_index as int].extends is Some);
                    }
                    current = superclass.clone();
                },
                None => {
                    break;
                },
            }
        }
        self.find_implementation(ty, method, visited, Ghost(root))
    }

    /// The first class implementing `interface` whose own hierarchy defines
    /// `method`; an interface already searched is not searched again.
    fn find_implementation(
        &self,
        interface: &str,
        method: &str,
        visited: &mut Vec<String>,
        Ghost(root): Ghost<Seq<char>>,
    ) -> (r: Option<usize>)
        requires
            self.symbols_ok(),
            type_universe(self.hierarchy@, root).contains(interface@),
        ensures
            r matches Some(i) ==> i < self.symbols@.len(),
            forall|x: Seq<char>| names_of(old(visited)@).contains(x) ==> names_of(final(visited)@).contains(x),
            r matches Some(i) ==> ends_with_member(self.symbols@[i as int].qualified_name@, method@),
            !names_of(old(visited)@).contains(interface@) && (exists|h: int|
                0 <= h < self.hierarchy@.len() && implements_with_member(
                    self.symbols@,
                    #[trigger] self.hierarchy@[h],
                    interface@,
                    method@,
                )) ==> r is Some,
            !names_of(old(visited)@).contains(interface@) ==> forall|i: int|
                #![trigger first_implementor(self.hierarchy@, interface@, i)]
                first_implementor(self.hierarchy@, interface@, i) ==> (member_from(
                    self.symbols@,
                    self.hierarchy@[i].name@,
                    method@,
                    0,
                ) matches Some(m) ==> r == Some(m as usize)),
            (opt_int(r), names_of(final(visited)@)) == impl_search(
                self.hierarchy@,
                self.symbols@,
                self.files@,
                interface@,
                method@,
                names_of(old(visited)@),
                type_universe(self.hierarchy@, root),
            ),
        decreases type_universe(self.hierarchy@, root).difference(names_of(old(visited)@).to_set()).len(), 0int,
    {
        let ghost u = type_universe(self.hierarchy@, root);
        proof {
            lemma_universe(self.hierarchy@, root);
        }
        if chain_contains(visited, interface) {
            return None;
        }
        let ghost before = names_of(visited@);
        visited.push(interface.to_string());
        proof {
            assert(names_of(visited@) =~= before.push(interface@));
            lemma_remaining_push(u, before, names_of(visited@), interface@);
            assert forall|x: Seq<char>| before.contains(x) implies names_of(visited@).contains(x) by {
                let j = before.index_of(x);
                assert(names_of(visited@)[j] == x);
            }
        }
        let ghost entry = names_of(visited@);
        let ghost result = impl_from(self.hierarchy@, self.symbols@, self.files@, interface@, method@, 0, entry, u);
        proof {
            assert(impl_search(self.hierarchy@, self.symbols@, self.files@, interface@, method@, before, u) == result);
        }
        let mut i: usize = 0;
        while i < self.hierarchy.len()
            invariant
                result == impl_from(self.hierarchy@, self.symbols@, self.files@, interface@, method@, i as int, names_of(visited@), u),
                result == impl_search(self.hierarchy@, self.symbols@, self.files@, interface@, method@, before, u),
                self.symbols_ok(),
                u == type_universe(self.hierarchy@, root),
                u.finite(),
                forall|i: int| 0 <= i < self.hierarchy@.len() && (#[trigger] self.hierarchy@[i]).extends is Some ==> u.contains(self.hierarchy@[i].extends->0@),
                u.difference(entry.to_set()).len() < u.difference(before.to_set()).len(),
                before == names_of(old(visited)@),
                forall|x: Seq<char>| entry.contains(x) ==> names_of(visited@).contains(x),
                forall|x: Seq<char>| before.contains(x) ==> entry.contains(x),
                i <= self.hierarchy@.len(),
                forall|h: int|
                    0 <= h < i ==> !implements_with_member(self.symbols@, #[trigger] self.hierarchy@[h], interface@, method@),
                forall|j: int|
                    #![trigger first_implementor(self.hierarchy@, interface@, j)]
                    0 <= j < i && first_implementor(self.hierarchy@, interface@, j) ==> member_from(
                        self.symbols@,
                        self.hierarchy@[j].name@,
                        method@,
                        0,
                    ) is None,
            decreases self.hierarchy@.len() - i,
        {
            let info = &self.hierarchy[i];
            let mut implements = false;
            let mut k: usize = 0;
            while k < info.implements.len()
                invariant
                    k <= info.implements@.len(),
                    implements == names_of(info.implements@).subrange(0, k as int).contains(interface@),
                decreases info.implements@.len() - k,
            {
                proof {
                    let ns = names_of(info.implements@);
                    let sub = ns.subrange(0, k + 1);
                    assert(sub =~= ns.subrange(0, k as int).push(ns[k as int]));
                    if ns.subrange(0, k as int).contains(interface@) {
                        let j = ns.subrange(0, k as int).index_of(interface@);
                        assert(sub[j] == interface@);
                    }
                    if ns[k as int] == interface@ {
                        assert(sub[k as int] == interface@);
                    }
                    if sub.contains(interface@) && ns[k as int] != interface@ {
                        let j = sub.index_of(interface@);
                        assert(ns.subrange(0, k as int)[j] == interface@);
                    }
                }
                if str_eq(info.implements[k].as_str(), interface) {
                    implements = true;
                }
                k = k + 1;
            }
            proof {
                assert(names_of(info.implements@).subrange(0, info.implements@.len() as int) =~= names_of(info.implements@));
            }
            if implements {
                let owner = info.name.as_str();
                let direct = self.member_index(owner, method);
                proof {
                    lemma_member_pick(self.symbols@, owner@, method@, direct);
                    assert(owner@ == info.name@);
                    assert forall|j: int|
                        #![trigger first_implementor(self.hierarchy@, interface@, j)]
                        first_implementor(self.hierarchy@, interface@, j) implies j <= i by {
                        if j > i {
                            assert(!names_of(self.hierarchy@[i as int].implements@).contains(interface@));
                        }
                    }
                }
                match direct {
                    Some(index) => {
                        proof {
                            lemma_member_ends(self.symbols@[index as int].qualified_name@, info.name@, method@);
                        }
                        return Some(index);
                    },
                    None => {
                        proof {
                            assert(owner@ == info.name@);
                        }
                    },
                }
                match &info.extends {
                    Some(superclass) => {
                        proof {
                            assert(self.hierarchy@[i as int].extends is Some);
                            lemma_visited_grows(u, entry, names_of(visited@));
                        }
                        let ghost mid = names_of(visited@);
                        let found = self.resolve_typed(superclass.as_str(), method, info.file_index, visited, Ghost(root));
                        proof {
                            assert forall|x: Seq<char>| entry.contains(x) implies names_of(visited@).contains(x) by {
                                assert(mid.contains(x));
                            }
                        }
                        if found.is_some() {
                            return found;
                        }
                    },
                    None => {},
                }
            }
            i = i + 1;
        }
        proof {
            if exists|h: int|
                0 <= h < self.hierarchy@.len() && implements_with_member(
                    self.symbols@,
                    #[trigger] self.hierarchy@[h],
                    interface@,
                    method@,
                ) {
                let h = choose|h: int|
                    0 <= h < self.hierarchy@.len() && implements_with_member(
                        self.symbols@,
                        #[trigger] self.hierarchy@[h],
                        interface@,
                        method@,
                    );
                assert(!implements_with_member(self.symbols@, self.hierarchy@[h], interface@, method@));
            }
        }
        None
    }
}

/// Whether `s` holds a `.`.
fn has_dot(s: &str) -> (r: bool)
    ensures
        r == s@.contains('.'),
{
    let cs = chars_of(s);
    let mut k: usize = 0;
    while k < cs.len()
        invariant
            k <= cs@.len(),
            cs@ == s@,
            forall|j: int| 0 <= j < k ==> cs@[j] != '.',
        decreases cs@.len() - k,
    {
        if cs[k] == '.' {
            assert(s@[k as int] == '.');
            return true;
        }
        k = k + 1;
    }
    false
}

/// The last `.`-separated segment of `s` (`rsplit('.').next()`).
pub fn last_segment(s: &str) -> (r: String)
    ensures
        r@ == after_last_dot(s@),
{
    let cs = chars_of(s);
    let n = cs.len();
    let mut d = n;
    proof {
        assert(cs@.subrange(0, n as int) =~= cs@);
        assert(after_last_dot(cs@) + cs@.subrange(n as int, n as int) =~= after_last_dot(cs@));
    }
    while d > 0 && cs[d - 1] != '.'
        invariant
            d <= n == cs@.len(),
            after_last_dot(cs@) == after_last_dot(cs@.subrange(0, d as int)) + cs@.subrange(d as int, n as int),
        decreases d,
    {
        proof {
            let sub = cs@.subrange(0, d as int);
            assert(sub.drop_last() =~= cs@.subrange(0, d - 1));
            assert(sub.last() == cs@[d - 1]);
            assert(after_last_dot(cs@.subrange(0, d - 1)).push(cs@[d - 1]) + cs@.subrange(d as int, n as int)
                =~= after_last_dot(cs@.subrange(0, d - 1)) + cs@.subrange(d - 1, n as int));
        }
        d = d - 1;
    }
    proof {
        if d > 0 {
            assert(cs@.subrange(0, d as int).last() == cs@[d - 1]);
        }
        assert(after_last_dot(cs@.subrange(0, d as int)) =~= Seq::<char>::empty());
        assert(after_last_dot(cs@) =~= cs@.subrange(d as int, n as int));
    }
    string_from_chars(cs.as_slice(), d, n)
}

/// `entry` is the (file index, declaration byte) of some symbol.
pub open spec fn is_located(symbols: Seq<GraphSymbol>, entry: (usize, usize)) -> bool {
    exists|c: int| 0 <= c < symbols.len() && entry.0 == (#[trigger] symbols[c]).file_index && entry.1 == symbols[c].start_byte
}

pub open spec fn located(symbols: Seq<GraphSymbol>, entries: Seq<(usize, usize)>) -> bool {
    forall|j: int| 0 <= j < entries.len() ==> is_located(symbols, #[trigger] entries[j])
}

/// The last of the first `upto` files whose path is `path`, component by
/// component.
pub open spec fn file_at_path(files: Seq<IndexedFile>, path: Seq<char>, upto: int) -> Option<usize>
    decreases upto,
{
    if upto <= 0 {
        None
    } else if path_components(files[upto - 1].path@) == path_components(path) {
        Some((upto - 1) as usize)
    } else {
        file_at_path(files, path, upto - 1)
    }
}

/// (file index, declaration byte) of the callees that `edges` resolved for
/// calls made from file `fi` whose last name segment is `name`, in edge
/// order, each once.
pub open spec fn resolved_entries(
    symbols: Seq<GraphSymbol>,
    edges: Seq<CallEdge>,
    fi: usize,
    name: Seq<char>,
) -> Seq<(usize, usize)>
    decreases edges.len(),
{
    if edges.len() == 0 {
        Seq::empty()
    } else {
        let prev = resolved_entries(symbols, edges.drop_last(), fi, name);
        let e = edges.last();
        if symbols[e.caller as int].file_index == fi && after_last_dot(e.callee_text@) == name && e.callee is Some {
            let c = e.callee->0;
            let entry = (symbols[c as int].file_index, symbols[c as int].start_byte);
            if prev.contains(entry) {
                prev
            } else {
                prev.push(entry)
            }
        } else {
            prev
        }
    }
}

/// (file index, declaration byte) of the symbols named `name`, in order.
pub open spec fn locations_named(symbols: Seq<GraphSymbol>, name: Seq<char>) -> Seq<(usize, usize)>
    decreases symbols.len(),
{
    if symbols.len() == 0 {
        Seq::empty()
    } else {
        let prev = locations_named(symbols.drop_last(), name);
        if symbols.last().name@ == name {
            prev.push((symbols.last().file_index, symbols.last().start_byte))
        } else {
            prev
        }
    }
}

/// The symbols and declared-type rows of the first `n` files, in file order.
pub open spec fn files_symbols(files: Seq<IndexedFile>, n: int) -> (
    Seq<(Seq<char>, Seq<char>, SymbolKind, Seq<char>, usize, usize, usize, Language)>,
    Seq<(usize, usize, Seq<char>, Seq<char>)>,
)
    decreases n,
{
    if n <= 0 {
        (Seq::empty(), Seq::empty())
    } else {
        let prev = files_symbols(files, n - 1);
        let f = files[n - 1];
        let own = symbols_of(f.tree.root, f, (n - 1) as usize, Seq::empty());
        (prev.0 + own.0, prev.1 + own.1)
    }
}

/// The class facts of the first `n` files, in file order.
pub open spec fn files_hierarchy(files: Seq<IndexedFile>, n: int) -> Seq<(usize, Seq<char>, Option<Seq<char>>, Seq<Seq<char>>)>
    decreases n,
{
    if n <= 0 {
        Seq::empty()
    } else {
        let f = files[n - 1];
        files_hierarchy(files, n - 1) + hierarchy_of(f.tree.root, f.language, string_bytes(&f.source), (n - 1) as usize)
    }
}

/// The import and namespace rows of the first `n` files, in file order.
pub open spec fn files_imports(files: Seq<IndexedFile>, n: int) -> (
    Seq<(usize, Seq<char>, Seq<char>, Seq<char>)>,
    Seq<(usize, Seq<char>, Seq<char>)>,
)
    decreases n,
{
    if n <= 0 {
        (Seq::empty(), Seq::empty())
    } else {
        let prev = files_imports(files, n - 1);
        let f = files[n - 1];
        let own = imports_of(f.tree.root, f.language, string_bytes(&f.source), (n - 1) as usize);
        (prev.0 + own.0, prev.1 + own.1)
    }
}

/// The call sites of the first `n` files, in file order.
pub open spec fn files_pending(files: Seq<IndexedFile>, n: int) -> Seq<(Seq<char>, Seq<char>, usize, Seq<char>, usize)>
    decreases n,
{
    if n <= 0 {
        Seq::empty()
    } else {
        let f = files[n - 1];
        files_pending(files, n - 1) + pending_of(f.tree.root, f.language, f.path@, string_bytes(&f.source), None)
    }
}

/// The symbol a call site's enclosing function is: the first symbol of the
/// same file (by components), line and name, from `k` on.
pub open spec fn caller_index(
    symbols: Seq<(Seq<char>, Seq<char>, SymbolKind, Seq<char>, usize, usize, usize, Language)>,
    call: (Seq<char>, Seq<char>, usize, Seq<char>, usize),
    k: int,
) -> Option<usize>
    decreases symbols.len() - k,
{
    if k < 0 || k >= symbols.len() {
        None
    } else if path_components(symbols[k].3) == path_components(call.0) && symbols[k].5 == call.2 && symbols[k].0
        == call.1 {
        Some(k as usize)
    } else {
        caller_index(symbols, call, k + 1)
    }
}

/// (caller symbol, callee as written, line) of each call site whose
/// enclosing function is a known symbol, in order.
pub open spec fn edge_rows(
    symbols: Seq<(Seq<char>, Seq<char>, SymbolKind, Seq<char>, usize, usize, usize, Language)>,
    calls: Seq<(Seq<char>, Seq<char>, usize, Seq<char>, usize)>,
) -> Seq<(usize, Seq<char>, usize)>
    decreases calls.len(),
{
    if calls.len() == 0 {
        Seq::empty()
    } else {
        let prev = edge_rows(symbols, calls.drop_last());
        let c = calls.last();
        match caller_index(symbols, c, 0) {
            Some(i) => prev.push((i, c.3, c.4)),
            None => prev,
        }
    }
}

/// What the edges say apart from their callees.
pub open spec fn edges_view(v: Seq<CallEdge>) -> Seq<(usize, Seq<char>, usize)> {
    v.map_values(|e: CallEdge| (e.caller, e.callee_text@, e.line))
}

/// The first import binding, from `k` on, of `local` in file `fi`.
pub open spec fn import_index(imports: Seq<(usize, String, String, String)>, fi: usize, local: Seq<char>, k: int) -> Option<usize>
    decreases imports.len() - k,
{
    if k < 0 || k >= imports.len() {
        None
    } else if imports[k].0 == fi && imports[k].1@ == local {
        Some(k as usize)
    } else {
        import_index(imports, fi, local, k + 1)
    }
}

/// The first namespace binding, from `k` on, of `name` in file `fi`.
pub open spec fn namespace_index(namespaces: Seq<(usize, String, String)>, fi: usize, name: Seq<char>, k: int) -> Option<usize>
    decreases namespaces.len() - k,
{
    if k < 0 || k >= namespaces.len() {
        None
    } else if namespaces[k].0 == fi && namespaces[k].1@ == name {
        Some(k as usize)
    } else {
        namespace_index(namespaces, fi, name, k + 1)
    }
}

/// The first symbol, from `k` on, declared in the file at `path` whose
/// name is `name` or whose qualified name ends in `.name`.
pub open spec fn symbol_in_file_index(symbols: Seq<GraphSymbol>, path: Seq<char>, name: Seq<char>, k: int) -> Option<usize>
    decreases symbols.len() - k,
{
    if k < 0 || k >= symbols.len() {
        None
    } else if path_components(symbols[k].file@) == path_components(path) && (symbols[k].name@ == name
        || ends_with_member(symbols[k].qualified_name@, name)) {
        Some(k as usize)
    } else {
        symbol_in_file_index(symbols, path, name, k + 1)
    }
}

/// Resolution through an import binding: a callee without a dot bound by
/// an import of the caller's file resolves to the symbol of the imported
/// file named by the binding's original name, else by the callee itself.
pub open spec fn import_stage(g: CodeGraph, caller: GraphSymbol, callee: Seq<char>) -> Option<usize> {
    if callee.contains('.') {
        None
    } else {
        match import_index(g.imports@, caller.file_index, callee, 0) {
            None => None,
            Some(ii) => {
                let b = g.imports@[ii as int];
                match import_target(g.files@, caller.file@, b.2@) {
                    None => None,
                    Some(t) => {
                        let target = g.files@[t as int].path@;
                        match symbol_in_file_index(g.symbols@, target, b.3@, 0) {
                            Some(i) => Some(i),
                            None => symbol_in_file_index(g.symbols@, target, callee, 0),
                        }
                    },
                }
            },
        }
    }
}

/// Resolution through a namespace binding: `ns.method`, `ns` bound by a
/// namespace import of the caller's file, resolves to `method` in the
/// imported file.
pub open spec fn namespace_stage(g: CodeGraph, caller: GraphSymbol, callee: Seq<char>) -> Option<usize> {
    match split_at_dot(callee) {
        None => None,
        Some((ns, method)) => match namespace_index(g.namespaces@, caller.file_index, ns, 0) {
            None => None,
            Some(ni) => match import_target(g.files@, caller.file@, g.namespaces@[ni as int].2@) {
                None => None,
                Some(t) => symbol_in_file_index(g.symbols@, g.files@[t as int].path@, method, 0),
            },
        },
    }
}


/// The first symbol, from `k` on, named `name`; with `same_file`, only
/// those in the caller's file count.
pub open spec fn named_index(symbols: Seq<GraphSymbol>, name: Seq<char>, caller_file: Seq<char>, same_file: bool, k: int) -> Option<usize>
    decreases symbols.len() - k,
{
    if k < 0 || k >= symbols.len() {
        None
    } else if symbols[k].name@ == name && (!same_file || path_components(symbols[k].file@) == path_components(
        caller_file,
    )) {
        Some(k as usize)
    } else {
        named_index(symbols, name, caller_file, same_file, k + 1)
    }
}

/// Resolution by name: the first symbol named like the callee's last
/// segment in the caller's file, else the first one anywhere.
pub open spec fn name_stage(g: CodeGraph, caller: GraphSymbol, callee: Seq<char>) -> Option<usize> {
    let simple = after_last_dot(callee);
    let same = named_index(g.symbols@, simple, caller.file@, true, 0);
    if same is Some {
        same
    } else {
        named_index(g.symbols@, simple, caller.file@, false, 0)
    }
}

/// A recorded type of `var` applies to a call by `caller`: same file, and
/// recorded at the caller's line or for the whole file.
pub open spec fn row_applies(row: (usize, usize, String, String), caller: GraphSymbol, var: Seq<char>) -> bool {
    row.0 == caller.file_index && row.2@ == var && (row.1 == caller.line || row.1 == 0)
}



/// Fact `i` is the first class fact implementing `interface`.
pub open spec fn first_implementor(h: Seq<ClassInfo>, interface: Seq<char>, i: int) -> bool {
    &&& 0 <= i < h.len() && names_of(h[i].implements@).contains(interface)
    &&& forall|j: int| 0 <= j < i ==> !names_of((#[trigger] h[j]).implements@).contains(interface)
}


/// The typed stage over the recorded types, from row `k` on: the first
/// row that records a type for `var` applying to a call by `caller` and
/// for which the typed search of `method` on that type finds a symbol.
pub open spec fn receiver_rows(
    rows: Seq<(usize, usize, String, String)>,
    h: Seq<ClassInfo>,
    symbols: Seq<GraphSymbol>,
    files: Seq<IndexedFile>,
    caller: GraphSymbol,
    var: Seq<char>,
    method: Seq<char>,
    k: int,
) -> Option<int>
    decreases rows.len() - k,
{
    if k < 0 || k >= rows.len() {
        None
    } else if row_applies(rows[k], caller, var) && typed_search(
        h,
        symbols,
        files,
        rows[k].3@,
        method,
        caller.file_index,
        seq![],
        type_universe(h, rows[k].3@),
    ).0 is Some {
        typed_search(h, symbols, files, rows[k].3@, method, caller.file_index, seq![], type_universe(h, rows[k].3@)).0
    } else {
        receiver_rows(rows, h, symbols, files, caller, var, method, k + 1)
    }
}

/// Past the import and namespace stages: the typed stage when the callee
/// has a receiver and it finds a symbol, else resolution by name.
pub open spec fn typed_or_name(g: CodeGraph, caller: GraphSymbol, callee: Seq<char>) -> Option<usize> {
    match split_at_dot(callee) {
        Some((var, method)) => match receiver_rows(g.var_types@, g.hierarchy@, g.symbols@, g.files@, caller, var, method, 0) {
            Some(i) => Some(i as usize),
            None => name_stage(g, caller, callee),
        },
        None => name_stage(g, caller, callee),
    }
}

/// What `resolve_edge` gives, in the order it tries: an import binding,
/// then a namespace binding, then (when the receiver's type is recorded)
/// the type hierarchy (`typed_search`, over the recorded types in order),
/// then the name.
pub open spec fn resolves_as(g: CodeGraph, caller: GraphSymbol, callee: Seq<char>, r: Option<usize>) -> bool {
    &&& import_stage(g, caller, callee) matches Some(i) ==> r == Some(i)
    &&& import_stage(g, caller, callee) is None ==> (namespace_stage(g, caller, callee) matches Some(i) ==> r
        == Some(i))
    &&& import_stage(g, caller, callee) is None && namespace_stage(g, caller, callee) is None ==> r == typed_or_name(
        g,
        caller,
        callee,
    )
    &&& name_stage(g, caller, callee) is Some ==> r is Some
}

/// Files at the same positions carry the same paths.
pub open spec fn same_paths(a: Seq<IndexedFile>, b: Seq<IndexedFile>) -> bool {
    a.len() == b.len() && forall|i: int| 0 <= i < a.len() ==> (#[trigger] a[i]).path@ == b[i].path@
}

proof fn lemma_file_at_path_alike(a: Seq<IndexedFile>, b: Seq<IndexedFile>, path: Seq<char>, upto: int)
    requires
        same_paths(a, b),
        upto <= a.len(),
    ensures
        file_at_path(a, path, upto) == file_at_path(b, path, upto),
    decreases upto,
{
    if upto > 0 {
        assert(a[upto - 1].path@ == b[upto - 1].path@);
        lemma_file_at_path_alike(a, b, path, upto - 1);
    }
}

proof fn lemma_resolved_entries_alike(
    sa: Seq<GraphSymbol>,
    sb: Seq<GraphSymbol>,
    ea: Seq<CallEdge>,
    eb: Seq<CallEdge>,
    fi: usize,
    name: Seq<char>,
)
    requires
        same_symbols(sa, sb),
        same_edges(ea, eb),
        forall|i: int| 0 <= i < ea.len() ==> (#[trigger] ea[i]).caller < sa.len() && (ea[i].callee matches Some(c) ==> c < sa.len()),
    ensures
        resolved_entries(sa, ea, fi, name) == resolved_entries(sb, eb, fi, name),
    decreases ea.len(),
{
    if ea.len() > 0 {
        let n = ea.len() - 1;
        assert(same_edge(ea[n], eb[n]));
        assert forall|i: int| 0 <= i < ea.drop_last().len() implies same_edge(#[trigger] ea.drop_last()[i], eb.drop_last()[i]) by {
            assert(same_edge(ea[i], eb[i]));
        }
        assert forall|i: int| 0 <= i < ea.drop_last().len() implies (#[trigger] ea.drop_last()[i]).caller < sa.len() && (
        ea.drop_last()[i].callee matches Some(c) ==> c < sa.len()) by {
            assert(ea.drop_last()[i] == ea[i]);
        }
        lemma_resolved_entries_alike(sa, sb, ea.drop_last(), eb.drop_last(), fi, name);
        assert(same_symbol(sa[ea[n].caller as int], sb[ea[n].caller as int]));
        if ea[n].callee is Some {
            let c = ea[n].callee->0;
            assert(same_symbol(sa[c as int], sb[c as int]));
        }
    }
}

/// A graph restored from a snapshot of another lists, for every calling
/// file and callee name, the same resolved declarations as the graph it was
/// taken from: the snapshot keeps what call resolution produced.
pub proof fn lemma_restored_graph_resolves_alike(g: CodeGraph, restored: CodeGraph, path: Seq<char>, name: Seq<char>)
    requires
        g.wf(),
        same_paths(restored.files@, g.files@),
        same_symbols(restored.symbols@, g.symbols@),
        same_edges(restored.edges@, g.edges@),
    ensures
        (match file_at_path(restored.files@, path, restored.files@.len() as int) {
            Some(fi) => resolved_entries(restored.symbols@, restored.edges@, fi, name),
            None => Seq::empty(),
        }) == (match file_at_path(g.files@, path, g.files@.len() as int) {
            Some(fi) => resolved_entries(g.symbols@, g.edges@, fi, name),
            None => Seq::empty(),
        }),
{
    lemma_file_at_path_alike(restored.files@, g.files@, path, restored.files@.len() as int);
    assert forall|i: int| 0 <= i < g.symbols@.len() implies same_symbol(#[trigger] g.symbols@[i], restored.symbols@[i]) by {
        assert(same_symbol(restored.symbols@[i], g.symbols@[i]));
    }
    assert forall|i: int| 0 <= i < g.edges@.len() implies same_edge(#[trigger] g.edges@[i], restored.edges@[i]) by {
        assert(same_edge(restored.edges@[i], g.edges@[i]));
    }
    if let Some(fi) = file_at_path(g.files@, path, g.files@.len() as int) {
        lemma_resolved_entries_alike(g.symbols@, restored.symbols@, g.edges@, restored.edges@, fi, name);
    }
}

impl CodeGraph {
    /// Resolves a call's callee against the project's symbols, from the most
    /// precise signal to the least: import bindings, namespace bindings,
    /// declared receiver types, then the callee's last name segment (same
    /// file first).
    fn resolve_edge(&self, caller: usize, callee_text: &str) -> (r: Option<usize>)
        requires
            self.symbols_ok(),
            caller < self.symbols@.len(),
        ensures
            r matches Some(i) ==> i < self.symbols@.len(),
            (exists|i: int| 0 <= i < self.symbols@.len() && (#[trigger] self.symbols@[i]).name@ == after_last_dot(callee_text@))
                ==> r is Some,
            resolves_as(*self, self.symbols@[caller as int], callee_text@, r),
    {
        let caller_symbol = &self.symbols[caller];
        let caller_file = caller_symbol.file.as_str();
        let file_index = caller_symbol.file_index;
        let caller_line = caller_symbol.line;
        if !has_dot(callee_text) {
            match self.import_for(file_index, callee_text) {
                Some(ii) => {
                    let binding = &self.imports[ii];
                    match self.resolve_import_target(caller_file, binding.2.as_str()) {
                        Some(t) => {
                            let target = self.files[t].path.as_str();
                            match self.symbol_in_file(target, binding.3.as_str()) {
                                Some(i) => {
                                    return Some(i);
                                },
                                None => match self.symbol_in_file(target, callee_text) {
                                    Some(i) => {
                                        return Some(i);
                                    },
                                    None => {},
                                },
                            }
                        },
                        None => {},
                    }
                },
                None => {},
            }
        }
        match split_once_dot(callee_text) {
            Some((namespace, method)) => {
                match self.namespace_for(file_index, namespace.as_str()) {
                    Some(ni) => {
                        match self.resolve_import_target(caller_file, self.namespaces[ni].2.as_str()) {
                            Some(t) => {
                                match self.symbol_in_file(self.files[t].path.as_str(), method.as_str()) {
                                    Some(i) => {
                                        return Some(i);
                                    },
                                    None => {},
                                }
                            },
                            None => {},
                        }
                    },
                    None => {},
                }
                let variable = namespace;
                let mut k: usize = 0;
                while k < self.var_types.len()
                    invariant
                        k <= self.var_types@.len(),
                        self.symbols_ok(),
                        caller < self.symbols@.len(),
                        import_stage(*self, self.symbols@[caller as int], callee_text@) is None,
                        namespace_stage(*self, self.symbols@[caller as int], callee_text@) is None,
                        split_at_dot(callee_text@) == Some((variable@, method@)),
                        file_index == self.symbols@[caller as int].file_index,
                        caller_line == self.symbols@[caller as int].line,
                        receiver_rows(self.var_types@, self.hierarchy@, self.symbols@, self.files@, self.symbols@[caller as int], variable@, method@, 0)
                            == receiver_rows(self.var_types@, self.hierarchy@, self.symbols@, self.files@, self.symbols@[caller as int], variable@, method@, k as int),
                    decreases self.var_types@.len() - k,
                {
                    let row = &self.var_types[k];
                    if row.0 == file_index && str_eq(row.2.as_str(), variable.as_str()) && (row.1 == caller_line
                        || row.1 == 0) {
                        let mut visited: Vec<String> = Vec::new();
                        proof {
                            lemma_universe(self.hierarchy@, row.3@);
                            assert(names_of(visited@) =~= Seq::<Seq<char>>::empty());
                        }
                        let resolved = self.resolve_typed(row.3.as_str(), method.as_str(), file_index, &mut visited, Ghost(row.3@));
                        if resolved.is_some() {
                            return resolved;
                        }
                    }
                    k = k + 1;
                }
            },
            None => {},
        }
        let simple = last_segment(callee_text);
        let mut same_file: Option<usize> = None;
        let mut any: Option<usize> = None;
        let mut i: usize = 0;
        while i < self.symbols.len()
            invariant
                i <= self.symbols@.len(),
                same_file matches Some(f) ==> f < self.symbols@.len(),
                any matches Some(f) ==> f < self.symbols@.len(),
                simple@ == after_last_dot(callee_text@),
                any is None ==> forall|j: int| 0 <= j < i ==> (#[trigger] self.symbols@[j]).name@ != simple@,
                caller < self.symbols@.len(),
                caller_file@ == self.symbols@[caller as int].file@,
                import_stage(*self, self.symbols@[caller as int], callee_text@) is None,
                namespace_stage(*self, self.symbols@[caller as int], callee_text@) is None,
                same_file is None ==> named_index(self.symbols@, simple@, caller_file@, true, 0) == named_index(
                    self.symbols@,
                    simple@,
                    caller_file@,
                    true,
                    i as int,
                ),
                same_file is Some ==> same_file == named_index(self.symbols@, simple@, caller_file@, true, 0),
                any is None ==> named_index(self.symbols@, simple@, caller_file@, false, 0) == named_index(
                    self.symbols@,
                    simple@,
                    caller_file@,
                    false,
                    i as int,
                ),
                any is Some ==> any == named_index(self.symbols@, simple@, caller_file@, false, 0),
            decreases self.symbols@.len() - i,
        {
            let symbol = &self.symbols[i];
            if str_eq(symbol.name.as_str(), simple.as_str()) {
                if same_file.is_none() && same_path(symbol.file.as_str(), caller_file) {
                    same_file = Some(i);
                }
                if any.is_none() {
                    any = Some(i);
                }
            }
            i = i + 1;
        }
        match same_file {
            Some(f) => Some(f),
            None => any,
        }
    }

    /// Indexes `files`: collects symbols, declared types, class hierarchy,
    /// imports and call edges, then resolves every call's callee.
    pub fn build(files: Vec<IndexedFile>) -> (r: CodeGraph)
        requires
            forall|i: int| 0 <= i < files@.len() ==> positions_fit((#[trigger] files@[i]).tree.root),
        ensures
            r.wf(),
            r.files@ == files@,
            symbols_view(r.symbols@) == files_symbols(files@, files@.len() as int).0,
            var_types_view(r.var_types@) == files_symbols(files@, files@.len() as int).1,
            classes_view(r.hierarchy@) == files_hierarchy(files@, files@.len() as int),
            imports_view(r.imports@) == files_imports(files@, files@.len() as int).0,
            namespaces_view(r.namespaces@) == files_imports(files@, files@.len() as int).1,
            edges_view(r.edges@) == edge_rows(symbols_view(r.symbols@), files_pending(files@, files@.len() as int)),
            forall|e: int|
                0 <= e < r.edges@.len() && (exists|i: int|
                    0 <= i < r.symbols@.len() && (#[trigger] r.symbols@[i]).name@ == after_last_dot(
                        (#[trigger] r.edges@[e]).callee_text@,
                    )) ==> r.edges@[e].callee is Some,
            forall|e: int|
                0 <= e < r.edges@.len() ==> resolves_as(
                    r,
                    r.symbols@[(#[trigger] r.edges@[e]).caller as int],
                    r.edges@[e].callee_text@,
                    r.edges@[e].callee,
                ),
    {
        let mut symbols: Vec<GraphSymbol> = Vec::new();
        let mut var_types: Vec<(usize, usize, String, String)> = Vec::new();
        let mut fi: usize = 0;
        proof {
            assert(symbols_view(symbols@) =~= files_symbols(files@, 0).0);
            assert(var_types_view(var_types@) =~= files_symbols(files@, 0).1);
        }
        while fi < files.len()
            invariant
                fi <= files@.len(),
                forall|i: int| 0 <= i < symbols@.len() ==> symbol_in_files(#[trigger] symbols@[i], files@),
                forall|i: int| 0 <= i < files@.len() ==> positions_fit((#[trigger] files@[i]).tree.root),
                symbols_view(symbols@) == files_symbols(files@, fi as int).0,
                var_types_view(var_types@) == files_symbols(files@, fi as int).1,
            decreases files@.len() - fi,
        {
            let mut classes: Vec<String> = Vec::new();
            proof {
                assert(names_of(classes@) =~= Seq::<Seq<char>>::empty());
            }
            let ghost before = symbols@;
            collect_symbols(&files[fi].tree.root, &files[fi], fi, &mut classes, &mut symbols, &mut var_types);
            proof {
                assert forall|i: int| 0 <= i < symbols@.len() implies symbol_in_files(#[trigger] symbols@[i], files@) by {
                    if i < before.len() {
                        assert(symbols@[i] == before[i]);
                    }
                }
            }
            fi = fi + 1;
        }
        let mut hierarchy: Vec<ClassInfo> = Vec::new();
        let mut imports: Vec<(usize, String, String, String)> = Vec::new();
        let mut namespaces: Vec<(usize, String, String)> = Vec::new();
        let mut fi: usize = 0;
        proof {
            assert(classes_view(hierarchy@) =~= files_hierarchy(files@, 0));
            assert(imports_view(imports@) =~= files_imports(files@, 0).0);
            assert(namespaces_view(namespaces@) =~= files_imports(files@, 0).1);
        }
        while fi < files.len()
            invariant
                fi <= files@.len(),
                classes_view(hierarchy@) == files_hierarchy(files@, fi as int),
                imports_view(imports@) == files_imports(files@, fi as int).0,
                namespaces_view(namespaces@) == files_imports(files@, fi as int).1,
            decreases files@.len() - fi,
        {
            collect_hierarchy(&files[fi].tree.root, &files[fi], fi, &mut hierarchy);
            collect_imports(&files[fi].tree.root, &files[fi], fi, &mut imports, &mut namespaces);
            fi = fi + 1;
        }
        let mut pending: Vec<PendingCall> = Vec::new();
        let mut fi: usize = 0;
        proof {
            assert(pending_view(pending@) =~= files_pending(files@, 0));
        }
        while fi < files.len()
            invariant
                fi <= files@.len(),
                forall|i: int| 0 <= i < files@.len() ==> positions_fit((#[trigger] files@[i]).tree.root),
                pending_view(pending@) == files_pending(files@, fi as int),
            decreases files@.len() - fi,
        {
            let none: Option<(String, String, usize)> = None;
            assert(enclosing_view(none) == None::<(Seq<char>, Seq<char>, usize)>);
            collect_edges(&files[fi].tree.root, &files[fi], &none, &mut pending);
            fi = fi + 1;
        }
        let ghost sv = symbols_view(symbols@);
        let ghost pv = pending_view(pending@);
        let mut callers: Vec<(usize, String, usize)> = Vec::new();
        let mut p: usize = 0;
        proof {
            assert(pv.subrange(0, 0) =~= Seq::<(Seq<char>, Seq<char>, usize, Seq<char>, usize)>::empty());
            assert(callers@.map_values(|t: (usize, String, usize)| (t.0, t.1@, t.2)) =~= edge_rows(sv, pv.subrange(0, 0)));
        }
        while p < pending.len()
            invariant
                p <= pending@.len(),
                forall|i: int| 0 <= i < callers@.len() ==> (#[trigger] callers@[i]).0 < symbols@.len(),
                sv == symbols_view(symbols@),
                pv == pending_view(pending@),
                callers@.map_values(|t: (usize, String, usize)| (t.0, t.1@, t.2)) == edge_rows(sv, pv.subrange(0, p as int)),
            decreases pending@.len() - p,
        {
            proof {
                let sub = pv.subrange(0, p + 1);
                assert(sub.drop_last() =~= pv.subrange(0, p as int));
                assert(sub.last() == pv[p as int]);
            }
            let call = &pending[p];
            let ghost cv = pv[p as int];
            let mut caller: Option<usize> = None;
            let mut i: usize = 0;
            while i < symbols.len() && caller.is_none()
                invariant
                    i <= symbols@.len(),
                    caller matches Some(c) ==> c < symbols@.len(),
                    sv == symbols_view(symbols@),
                    cv == (call.caller_file@, call.caller_name@, call.caller_line, call.callee_text@, call.line),
                    caller is None ==> caller_index(sv, cv, 0) == caller_index(sv, cv, i as int),
                    caller is Some ==> caller == caller_index(sv, cv, 0),
                decreases symbols@.len() - i,
            {
                let symbol = &symbols[i];
                assert(sv[i as int] == symbol_view(*symbol));
                if same_path(symbol.file.as_str(), call.caller_file.as_str()) && symbol.line == call.caller_line
                    && str_eq(symbol.name.as_str(), call.caller_name.as_str()) {
                    caller = Some(i);
                }
                i = i + 1;
            }
            let ghost before = callers@.map_values(|t: (usize, String, usize)| (t.0, t.1@, t.2));
            match caller {
                Some(c) => {
                    callers.push((c, call.callee_text.clone(), call.line));
                    assert(callers@.map_values(|t: (usize, String, usize)| (t.0, t.1@, t.2)) =~= before.push((c, cv.3, cv.4)));
                },
                None => {},
            }
            p = p + 1;
        }
        proof {
            assert(pv.subrange(0, pending@.len() as int) =~= pv);
        }
        let mut graph = CodeGraph {
            files,
            symbols,
            edges: Vec::new(),
            var_types,
            hierarchy,
            imports,
            namespaces,
        };
        let ghost cw = callers@.map_values(|t: (usize, String, usize)| (t.0, t.1@, t.2));
        let mut edges: Vec<CallEdge> = Vec::new();
        let mut e: usize = 0;
        proof {
            assert(edges_view(edges@) =~= cw.subrange(0, 0));
        }
        while e < callers.len()
            invariant
                e <= callers@.len(),
                graph.symbols_ok(),
                forall|i: int| 0 <= i < callers@.len() ==> (#[trigger] callers@[i]).0 < graph.symbols@.len(),
                forall|i: int| 0 <= i < edges@.len() ==> (#[trigger] edges@[i]).caller < graph.symbols@.len() && (
                edges@[i].callee matches Some(c) ==> c < graph.symbols@.len()),
                cw == callers@.map_values(|t: (usize, String, usize)| (t.0, t.1@, t.2)),
                edges_view(edges@) == cw.subrange(0, e as int),
                forall|k: int|
                    0 <= k < edges@.len() && (exists|i: int|
                        0 <= i < graph.symbols@.len() && (#[trigger] graph.symbols@[i]).name@ == after_last_dot(
                            (#[trigger] edges@[k]).callee_text@,
                        )) ==> edges@[k].callee is Some,
                forall|k: int|
                    0 <= k < edges@.len() ==> resolves_as(
                        graph,
                        graph.symbols@[(#[trigger] edges@[k]).caller as int],
                        edges@[k].callee_text@,
                        edges@[k].callee,
                    ),
            decreases callers@.len() - e,
        {
            let (caller, callee_text, line) = (callers[e].0, callers[e].1.clone(), callers[e].2);
            let callee = graph.resolve_edge(caller, callee_text.as_str());
            let ghost before = edges@;
            assert(cw[e as int] == (caller, callee_text@, line));
            edges.push(CallEdge { caller, callee_text, callee, line });
            proof {
                assert(cw.subrange(0, e + 1) =~= cw.subrange(0, e as int).push(cw[e as int]));
                assert(edges_view(edges@) =~= cw.subrange(0, e + 1));
                assert forall|k: int|
                    0 <= k < edges@.len() && (exists|i: int|
                        0 <= i < graph.symbols@.len() && (#[trigger] graph.symbols@[i]).name@ == after_last_dot(
                            (#[trigger] edges@[k]).callee_text@,
                        )) implies edges@[k].callee is Some by {
                    if k < before.len() {
                        assert(edges@[k] == before[k]);
                    }
                }
                assert forall|k: int| 0 <= k < edges@.len() implies resolves_as(
                    graph,
                    graph.symbols@[(#[trigger] edges@[k]).caller as int],
                    edges@[k].callee_text@,
                    edges@[k].callee,
                ) by {
                    if k < before.len() {
                        assert(edges@[k] == before[k]);
                    }
                }
            }
            e = e + 1;
        }
        proof {
            assert(cw.subrange(0, callers@.len() as int) =~= cw);
        }
        let ghost g0 = graph;
        graph.edges = edges;
        proof {
            assert forall|k: int| 0 <= k < graph.edges@.len() implies resolves_as(
                graph,
                graph.symbols@[(#[trigger] graph.edges@[k]).caller as int],
                graph.edges@[k].callee_text@,
                graph.edges@[k].callee,
            ) by {
                let c = graph.symbols@[graph.edges@[k].caller as int];
                let t = graph.edges@[k].callee_text@;
                assert(resolves_as(g0, c, t, graph.edges@[k].callee));
                assert(import_stage(graph, c, t) == import_stage(g0, c, t));
                assert(namespace_stage(graph, c, t) == namespace_stage(g0, c, t));
                assert(graph.var_types == g0.var_types);
                assert(name_stage(graph, c, t) == name_stage(g0, c, t));
                assert(graph.symbols == g0.symbols && graph.files == g0.files && graph.hierarchy == g0.hierarchy);
                assert(typed_or_name(graph, c, t) == typed_or_name(g0, c, t));
            }
        }
        graph
    }

    /// (file index, declaration byte) of every callee resolved from a call
    /// in the file at `path` whose callee's last name segment is `name`, in
    /// edge order, without repeats.
    pub fn resolved_callees_for_file(&self, path: &str, name: &str) -> (r: Vec<(usize, usize)>)
        requires
            self.wf(),
        ensures
            located(self.symbols@, r@),
            r@ == match file_at_path(self.files@, path@, self.files@.len() as int) {
                Some(fi) => resolved_entries(self.symbols@, self.edges@, fi, name@),
                None => Seq::empty(),
            },
    {
        let mut file_index: Option<usize> = None;
        let mut i: usize = 0;
        while i < self.files.len()
            invariant
                i <= self.files@.len(),
                file_index == file_at_path(self.files@, path@, i as int),
            decreases self.files@.len() - i,
        {
            if same_path(self.files[i].path.as_str(), path) {
                file_index = Some(i);
            }
            i = i + 1;
        }
        let fi = match file_index {
            Some(f) => f,
            None => {
                return Vec::new();
            },
        };
        let mut out: Vec<(usize, usize)> = Vec::new();
        let mut e: usize = 0;
        proof {
            assert(self.edges@.subrange(0, 0) =~= Seq::<CallEdge>::empty());
        }
        while e < self.edges.len()
            invariant
                e <= self.edges@.len(),
                self.wf(),
                located(self.symbols@, out@),
                out@ == resolved_entries(self.symbols@, self.edges@.subrange(0, e as int), fi, name@),
            decreases self.edges@.len() - e,
        {
            let edge = &self.edges[e];
            proof {
                let sub = self.edges@.subrange(0, e + 1);
                assert(sub.drop_last() =~= self.edges@.subrange(0, e as int));
                assert(sub.last() == self.edges@[e as int]);
            }
            assert(edge.caller < self.symbols@.len());
            if self.symbols[edge.caller].file_index == fi {
                let simple = last_segment(edge.callee_text.as_str());
                if str_eq(simple.as_str(), name) {
                    match edge.callee {
                        Some(c) => {
                            let entry = (self.symbols[c].file_index, self.symbols[c].start_byte);
                            let mut seen = false;
                            let mut k: usize = 0;
                            while k < out.len()
                                invariant
                                    k <= out@.len(),
                                    seen == out@.subrange(0, k as int).contains(entry),
                                decreases out@.len() - k,
                            {
                                proof {
                                    let sub = out@.subrange(0, k + 1);
                                    assert(sub =~= out@.subrange(0, k as int).push(out@[k as int]));
                                    if out@.subrange(0, k as int).contains(entry) {
                                        let j = out@.subrange(0, k as int).index_of(entry);
                                        assert(sub[j] == entry);
                                    }
                                    if out@[k as int] == entry {
                                        assert(sub[k as int] == entry);
                                    }
                                    if sub.contains(entry) && out@[k as int] != entry {
                                        let j = sub.index_of(entry);
                                        assert(out@.subrange(0, k as int)[j] == entry);
                                    }
                                }
                                if out[k].0 == entry.0 && out[k].1 == entry.1 {
                                    seen = true;
                                }
                                k = k + 1;
                            }
                            proof {
                                assert(out@.subrange(0, out@.len() as int) =~= out@);
                            }
                            if !seen {
                                let ghost prev = out@;
                                out.push(entry);
                                proof {
                                    assert forall|j: int| 0 <= j < out@.len() implies is_located(self.symbols@, #[trigger] out@[j]) by {
                                        if j < prev.len() {
                                            assert(out@[j] == prev[j]);
                                        } else {
                                            assert(out@[j].0 == self.symbols@[c as int].file_index);
                                            assert(out@[j].1 == self.symbols@[c as int].start_byte);
                                            assert(is_located(self.symbols@, out@[j]));
                                        }
                                    }
                                }
                            }
                        },
                        None => {},
                    }
                }
            }
            e = e + 1;
        }
        proof {
            assert(self.edges@.subrange(0, self.edges@.len() as int) =~= self.edges@);
        }
        out
    }

    /// (file index, declaration byte) of every symbol named `name`, in
    /// symbol order.
    pub fn name_locations(&self, name: &str) -> (r: Vec<(usize, usize)>)
        ensures
            r@ == locations_named(self.symbols@, name@),
    {
        let mut out: Vec<(usize, usize)> = Vec::new();
        let mut i: usize = 0;
        proof {
            assert(self.symbols@.subrange(0, 0) =~= Seq::<GraphSymbol>::empty());
        }
        while i < self.symbols.len()
            invariant
                i <= self.symbols@.len(),
                out@ == locations_named(self.symbols@.subrange(0, i as int), name@),
            decreases self.symbols@.len() - i,
        {
            proof {
                let sub = self.symbols@.subrange(0, i + 1);
                assert(sub.drop_last() =~= self.symbols@.subrange(0, i as int));
                assert(sub.last() == self.symbols@[i as int]);
            }
            if str_eq(self.symbols[i].name.as_str(), name) {
                out.push((self.symbols[i].file_index, self.symbols[i].start_byte));
            }
            i = i + 1;
        }
        proof {
            assert(self.symbols@.subrange(0, self.symbols@.len() as int) =~= self.symbols@);
        }
        out
    }

    /// The parsed file at `file_index`.
    pub fn indexed_file(&self, file_index: usize) -> (r: Option<&IndexedFile>)
        ensures
            match r {
                Some(f) => file_index < self.files@.len() && *f == self.files@[file_index as int],
                None => file_index >= self.files@.len(),
            },
    {
        if file_index < self.files.len() {
            Some(&self.files[file_index])
        } else {
            None
        }
    }
}

} // verus!
