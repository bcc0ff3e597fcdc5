//! Lightweight semantic analysis: a per-file symbol table (types,
//! functions and variables) collected from the syntax tree, with simple
//! queries.

use vstd::prelude::*;
use vstd::string::*;
use vstd::utf8::*;
use crate::syntax::{SyntaxNode, SyntaxTree};
use crate::text::{sbytes, str_eq, text_of};
use crate::taint::opt_text;

verus! {

/// Kinds of symbol tracked.
#[derive(Debug, Clone, Copy, PartialEq, Eq, Structural, PartialOrd, Ord)]
pub enum SymbolKind {
    Type,
    Function,
    Variable,
}

#[derive(Debug, PartialEq, Eq)]
pub struct Symbol {
    pub name: String,
    pub kind: SymbolKind,
    /// 1-based line and column of the declaring node.
    pub line: usize,
    pub column: usize,
}

#[derive(Debug, Default, PartialEq, Eq)]
pub struct SymbolTable {
    pub symbols: Vec<Symbol>,
}

/// What a symbol says: (name, kind, line, column).
pub open spec fn symbol_view(s: Symbol) -> (Seq<char>, SymbolKind, nat, nat) {
    (s.name@, s.kind, s.line as nat, s.column as nat)
}

/// The symbols named `name`, in table order.
pub open spec fn named(symbols: Seq<Symbol>, name: Seq<char>) -> Seq<Symbol>
    decreases symbols.len(),
{
    if symbols.len() == 0 {
        Seq::empty()
    } else {
        let prev = named(symbols.drop_last(), name);
        if symbols.last().name@ == name {
            prev.push(symbols.last())
        } else {
            prev
        }
    }
}

impl SymbolTable {
    pub fn is_empty(&self) -> (r: bool)
        ensures
            r == (self.symbols@.len() == 0),
    {
        self.symbols.len() == 0
    }

    pub fn len(&self) -> (r: usize)
        ensures
            r == self.symbols@.len(),
    {
        self.symbols.len()
    }

    /// The symbols in collection order.
    pub fn iter(&self) -> (r: std::slice::Iter<'_, Symbol>)
        ensures
            vstd::std_specs::slice::into_iter_elts(r) == self.symbols@,
    {
        broadcast use vstd::std_specs::slice::axiom_spec_slice_iter;
        let it = self.symbols.as_slice().iter();
        proof {
            assert(vstd::std_specs::slice::into_iter_elts(it) == vstd::std_specs::iter::IteratorSpec::remaining(&it).unref());
            assert(vstd::std_specs::iter::IteratorSpec::remaining(&it).unref() =~= self.symbols@);
        }
        it
    }

    /// The symbols named `name`, in table order.
    pub fn by_name(&self, name: &str) -> (r: Vec<&Symbol>)
        ensures
            r@.map_values(|s: &Symbol| *s) == named(self.symbols@, name@),
    {
        let mut out: Vec<&Symbol> = Vec::new();
        let mut i: usize = 0;
        proof {
            assert(out@.map_values(|s: &Symbol| *s) =~= named(self.symbols@.subrange(0, 0), name@));
        }
        while i < self.symbols.len()
            invariant
                i <= self.symbols@.len(),
                out@.map_values(|s: &Symbol| *s) == named(self.symbols@.subrange(0, i as int), name@),
            decreases self.symbols@.len() - i,
        {
            let s = &self.symbols[i];
            proof {
                let sub = self.symbols@.subrange(0, i + 1);
                assert(sub.drop_last() =~= self.symbols@.subrange(0, i as int));
                assert(sub.last() == *s);
            }
            if str_eq(s.name.as_str(), name) {
                let ghost prev = out@;
                out.push(s);
                assert(out@.map_values(|x: &Symbol| *x) =~= prev.map_values(|x: &Symbol| *x).push(*s));
            }
            i = i + 1;
        }
        assert(self.symbols@.subrange(0, self.symbols@.len() as int) =~= self.symbols@);
        out
    }

    /// Whether some symbol is named `name`.
    pub fn contains_name(&self, name: &str) -> (r: bool)
        ensures
            r == (named(self.symbols@, name@).len() > 0),
    {
        let found = self.by_name(name);
        found.len() > 0
    }
}

/// The first symbol of `defs` declared at or before `line`.
pub open spec fn first_at_or_before(defs: Seq<Symbol>, line: nat) -> Option<Symbol>
    decreases defs.len(),
{
    if defs.len() == 0 {
        None
    } else if defs[0].line <= line {
        Some(defs[0])
    } else {
        first_at_or_before(defs.drop_first(), line)
    }
}

/// Whether `name` is declared at or before `line`, with the line of its
/// first such declaration.
pub fn declared_before(table: &SymbolTable, name: &str, line: usize) -> (r: (bool, Option<usize>))
    ensures
        match first_at_or_before(named(table.symbols@, name@), line as nat) {
            Some(def) => r == (true, Some(def.line)),
            None => r == (false, None::<usize>),
        },
{
    let defs = table.by_name(name);
    let ghost ds = defs@.map_values(|s: &Symbol| *s);
    let mut i: usize = 0;
    proof {
        assert(ds.subrange(0, ds.len() as int) =~= ds);
    }
    while i < defs.len()
        invariant
            i <= defs@.len(),
            ds == defs@.map_values(|s: &Symbol| *s),
            ds == named(table.symbols@, name@),
            first_at_or_before(ds.subrange(i as int, ds.len() as int), line as nat) == first_at_or_before(
                ds,
                line as nat,
            ),
        decreases defs@.len() - i,
    {
        proof {
            assert(ds.subrange(i as int, ds.len() as int).drop_first() =~= ds.subrange(i + 1, ds.len() as int));
            assert(ds.subrange(i as int, ds.len() as int)[0] == *defs@[i as int]);
        }
        if defs[i].line <= line {
            return (true, Some(defs[i].line));
        }
        i = i + 1;
    }
    proof {
        assert(ds.subrange(defs@.len() as int, ds.len() as int) =~= Seq::<Symbol>::empty());
        assert(ds.subrange(0, ds.len() as int) =~= ds);
    }
    (false, None)
}

/// Position of the first of `children`, from `k` on, hanging under `field`.
pub open spec fn field_index(children: Seq<SyntaxNode>, field: Seq<char>, k: int) -> int
    decreases children.len() - k,
{
    if k < 0 || k >= children.len() {
        -1
    } else if children[k].field matches Some(f) && f@ == field {
        k
    } else {
        field_index(children, field, k + 1)
    }
}

/// Position of the first of `children`, from `k` on, of kind `kind`.
pub open spec fn kind_index(children: Seq<SyntaxNode>, kind: Seq<char>, k: int) -> int
    decreases children.len() - k,
{
    if k < 0 || k >= children.len() {
        -1
    } else if children[k].kind@ == kind {
        k
    } else {
        kind_index(children, kind, k + 1)
    }
}

pub proof fn lemma_field_index_bounds(children: Seq<SyntaxNode>, field: Seq<char>, k: int)
    ensures
        field_index(children, field, k) == -1 || (k <= field_index(children, field, k) < children.len()),
    decreases children.len() - k,
{
    if k >= 0 && k < children.len() && !(children[k].field matches Some(f) && f@ == field) {
        lemma_field_index_bounds(children, field, k + 1);
    }
}

pub proof fn lemma_kind_index_bounds(children: Seq<SyntaxNode>, kind: Seq<char>, k: int)
    ensures
        kind_index(children, kind, k) == -1 || (k <= kind_index(children, kind, k) < children.len()),
    decreases children.len() - k,
{
    if k >= 0 && k < children.len() && children[k].kind@ != kind {
        lemma_kind_index_bounds(children, kind, k + 1);
    }
}

/// `child_by_field_name`: the first child hanging under `field`.
pub open spec fn field_child(n: SyntaxNode, field: Seq<char>) -> Option<SyntaxNode> {
    let k = field_index(n.children@, field, 0);
    if 0 <= k < n.children@.len() {
        Some(n.children@[k])
    } else {
        None
    }
}

/// The first child of kind `kind`.
pub open spec fn kind_child(n: SyntaxNode, kind: Seq<char>) -> Option<SyntaxNode> {
    let k = kind_index(n.children@, kind, 0);
    if 0 <= k < n.children@.len() {
        Some(n.children@[k])
    } else {
        None
    }
}

/// The source text a node spans, when its bounds are character boundaries
/// of the source.
pub open spec fn node_text(n: SyntaxNode, src: Seq<u8>) -> Option<Seq<char>> {
    if n.start_byte <= n.end_byte <= src.len() && is_char_boundary(src, n.start_byte as int)
        && is_char_boundary(src, n.end_byte as int) {
        Some(decode_utf8(src.subrange(n.start_byte as int, n.end_byte as int)))
    } else {
        None
    }
}

pub open spec fn opt_node_text(n: Option<SyntaxNode>, src: Seq<u8>) -> Option<Seq<char>> {
    match n {
        Some(m) => node_text(m, src),
        None => None,
    }
}

/// The name a `local_variable_declaration` declares.
pub open spec fn local_variable_name(n: SyntaxNode, src: Seq<u8>) -> Option<Seq<char>> {
    let via_declarator = match field_child(n, "declarator"@) {
        Some(d) => opt_node_text(field_child(d, "name"@), src),
        None => None,
    };
    if via_declarator is Some {
        via_declarator
    } else {
        match field_child(n, "name"@) {
            Some(m) => match node_text(m, src) {
                Some(t) => Some(t),
                None => opt_node_text(kind_child(n, "identifier"@), src),
            },
            None => None,
        }
    }
}

/// The symbol a node declares, if any: its name and kind.
pub open spec fn declared(n: SyntaxNode, src: Seq<u8>) -> Option<(Seq<char>, SymbolKind)> {
    let k = n.kind@;
    let found = if k == "class_declaration"@ || k == "interface_declaration"@ || k == "enum_declaration"@
        || k == "class_definition"@ {
        (opt_node_text(field_child(n, "name"@), src), SymbolKind::Type)
    } else if k == "method_declaration"@ || k == "constructor_declaration"@ || k == "function_definition"@
        || k == "function_declaration"@ {
        (opt_node_text(field_child(n, "name"@), src), SymbolKind::Function)
    } else if k == "local_variable_declaration"@ {
        (local_variable_name(n, src), SymbolKind::Variable)
    } else if k == "type_spec"@ {
        (opt_node_text(kind_child(n, "type_identifier"@), src), SymbolKind::Type)
    } else {
        (None, SymbolKind::Type)
    };
    match found.0 {
        Some(name) => Some((name, found.1)),
        None => None,
    }
}

/// The symbols of a subtree, in pre-order.
pub open spec fn node_symbols(n: SyntaxNode, src: Seq<u8>) -> Seq<(Seq<char>, SymbolKind, nat, nat)>
    decreases n,
{
    let own = match declared(n, src) {
        Some((name, kind)) => seq![(name, kind, (n.start_row + 1) as nat, (n.start_column + 1) as nat)],
        None => Seq::empty(),
    };
    own + children_symbols(n.children@, src)
}

pub open spec fn children_symbols(cs: Seq<SyntaxNode>, src: Seq<u8>) -> Seq<(Seq<char>, SymbolKind, nat, nat)>
    decreases cs,
{
    if cs.len() == 0 {
        Seq::empty()
    } else {
        children_symbols(cs.drop_last(), src) + node_symbols(cs.last(), src)
    }
}

/// Every node's rows and columns leave room for 1-based numbering.
pub open spec fn positions_fit(n: SyntaxNode) -> bool
    decreases n,
{
    n.start_row < usize::MAX && n.start_column < usize::MAX && n.end_row < usize::MAX && n.end_column
        < usize::MAX && children_fit(n.children@)
}

pub open spec fn children_fit(cs: Seq<SyntaxNode>) -> bool
    decreases cs,
{
    cs.len() == 0 || (children_fit(cs.drop_last()) && positions_fit(cs.last()))
}

pub proof fn lemma_children_fit(cs: Seq<SyntaxNode>, i: int)
    requires
        children_fit(cs),
        0 <= i < cs.len(),
    ensures
        positions_fit(cs[i]),
    decreases cs.len(),
{
    if i < cs.len() - 1 {
        lemma_children_fit(cs.drop_last(), i);
    }
}

pub fn field_child_exec<'a>(n: &'a SyntaxNode, field: &str) -> (r: Option<&'a SyntaxNode>)
    ensures
        match r {
            Some(c) => field_child(*n, field@) == Some(*c),
            None => field_child(*n, field@) is None,
        },
{
    proof {
        lemma_field_index_bounds(n.children@, field@, 0);
    }
    let mut k: usize = 0;
    while k < n.children.len()
        invariant
            k <= n.children@.len(),
            field_index(n.children@, field@, k as int) == field_index(n.children@, field@, 0),
        decreases n.children@.len() - k,
    {
        let c = &n.children[k];
        let hit = match &c.field {
            Some(f) => str_eq(f.as_str(), field),
            None => false,
        };
        if hit {
            return Some(c);
        }
        k = k + 1;
    }
    None
}

pub fn kind_child_exec<'a>(n: &'a SyntaxNode, kind: &str) -> (r: Option<&'a SyntaxNode>)
    ensures
        match r {
            Some(c) => kind_child(*n, kind@) == Some(*c),
            None => kind_child(*n, kind@) is None,
        },
{
    proof {
        lemma_kind_index_bounds(n.children@, kind@, 0);
    }
    let mut k: usize = 0;
    while k < n.children.len()
        invariant
            k <= n.children@.len(),
            kind_index(n.children@, kind@, k as int) == kind_index(n.children@, kind@, 0),
        decreases n.children@.len() - k,
    {
        let c = &n.children[k];
        if str_eq(c.kind.as_str(), kind) {
            return Some(c);
        }
        k = k + 1;
    }
    None
}

pub fn node_text_exec<'s>(n: &SyntaxNode, source: &'s str) -> (r: Option<&'s str>)
    ensures
        match r {
            Some(t) => node_text(*n, sbytes(source)) == Some(t@),
            None => node_text(*n, sbytes(source)) is None,
        },
{
    match text_of(source, n.start_byte, n.end_byte) {
        Some(t) => {
            proof {
                encode_utf8_decode_utf8(t@);
            }
            Some(t)
        },
        None => None,
    }
}

fn opt_text_exec<'s>(n: Option<&SyntaxNode>, source: &'s str) -> (r: Option<&'s str>)
    ensures
        match n {
            Some(m) => match r {
                Some(t) => node_text(*m, sbytes(source)) == Some(t@),
                None => node_text(*m, sbytes(source)) is None,
            },
            None => r is None,
        },
{
    match n {
        Some(m) => node_text_exec(m, source),
        None => None,
    }
}

fn declared_exec<'s>(n: &SyntaxNode, source: &'s str) -> (r: Option<(&'s str, SymbolKind)>)
    ensures
        match r {
            Some((name, kind)) => declared(*n, sbytes(source)) == Some((name@, kind)),
            None => declared(*n, sbytes(source)) is None,
        },
{
    let k = n.kind.as_str();
    let ghost src = sbytes(source);
    if str_eq(k, "class_declaration") || str_eq(k, "interface_declaration") || str_eq(k, "enum_declaration")
        || str_eq(k, "class_definition") {
        match opt_text_exec(field_child_exec(n, "name"), source) {
            Some(t) => Some((t, SymbolKind::Type)),
            None => None,
        }
    } else if str_eq(k, "method_declaration") || str_eq(k, "constructor_declaration") || str_eq(
        k,
        "function_definition",
    ) || str_eq(k, "function_declaration") {
        match opt_text_exec(field_child_exec(n, "name"), source) {
            Some(t) => Some((t, SymbolKind::Function)),
            None => None,
        }
    } else if str_eq(k, "local_variable_declaration") {
        let via = match field_child_exec(n, "declarator") {
            Some(d) => opt_text_exec(field_child_exec(d, "name"), source),
            None => None,
        };
        match via {
            Some(t) => Some((t, SymbolKind::Variable)),
            None => match field_child_exec(n, "name") {
                Some(m) => match node_text_exec(m, source) {
                    Some(t) => Some((t, SymbolKind::Variable)),
                    None => match opt_text_exec(kind_child_exec(n, "identifier"), source) {
                        Some(t) => Some((t, SymbolKind::Variable)),
                        None => None,
                    },
                },
                None => None,
            },
        }
    } else if str_eq(k, "type_spec") {
        match opt_text_exec(kind_child_exec(n, "type_identifier"), source) {
            Some(t) => Some((t, SymbolKind::Type)),
            None => None,
        }
    } else {
        None
    }
}

fn collect(node: &SyntaxNode, source: &str, table: &mut SymbolTable)
    requires
        positions_fit(*node),
    ensures
        final(table).symbols@.map_values(|s: Symbol| symbol_view(s)) == old(table).symbols@.map_values(
            |s: Symbol| symbol_view(s),
        ) + node_symbols(*node, sbytes(source)),
    decreases node,
{
    let ghost src = sbytes(source);
    let ghost start = table.symbols@.map_values(|s: Symbol| symbol_view(s));
    match declared_exec(node, source) {
        Some((name, kind)) => {
            table.symbols.push(
                Symbol { name: name.to_owned(), kind, line: node.start_row + 1, column: node.start_column + 1 },
            );
            assert(table.symbols@.map_values(|s: Symbol| symbol_view(s)) =~= start.push(
                (name@, kind, (node.start_row + 1) as nat, (node.start_column + 1) as nat),
            ));
        },
        None => {},
    }
    let ghost own = table.symbols@.map_values(|s: Symbol| symbol_view(s));
    let mut i: usize = 0;
    proof {
        assert(node.children@.subrange(0, 0) =~= Seq::<SyntaxNode>::empty());
        assert(own + children_symbols(Seq::<SyntaxNode>::empty(), src) =~= own);
    }
    while i < node.children.len()
        invariant
            i <= node.children@.len(),
            positions_fit(*node),
            src == sbytes(source),
            table.symbols@.map_values(|s: Symbol| symbol_view(s)) == own + children_symbols(
                node.children@.subrange(0, i as int),
                src,
            ),
        decreases node.children@.len() - i,
    {
        proof {
            lemma_children_fit(node.children@, i as int);
            let sub = node.children@.subrange(0, i + 1);
            assert(sub.drop_last() =~= node.children@.subrange(0, i as int));
            assert(sub.last() == node.children@[i as int]);
        }
        let ghost before = table.symbols@.map_values(|s: Symbol| symbol_view(s));
        collect(&node.children[i], source, table);
        i = i + 1;
        proof {
            assert(table.symbols@.map_values(|s: Symbol| symbol_view(s)) =~= own + children_symbols(
                node.children@.subrange(0, i as int),
                src,
            ));
        }
    }
    proof {
        assert(node.children@.subrange(0, node.children@.len() as int) =~= node.children@);
        assert(start + node_symbols(*node, src) =~= own + children_symbols(node.children@, src)) by {
            if declared(*node, src) is None {
                assert(own =~= start);
            }
        }
    }
}

/// Collects the declarations of a parsed file, in source pre-order, into a
/// symbol table.
pub fn collect_symbols(tree: &SyntaxTree, source: &str) -> (r: SymbolTable)
    requires
        positions_fit(tree.root),
    ensures
        r.symbols@.map_values(|s: Symbol| symbol_view(s)) == node_symbols(tree.root, sbytes(source)),
{
    let mut table = SymbolTable { symbols: Vec::new() };
    proof {
        assert(table.symbols@.map_values(|s: Symbol| symbol_view(s)) =~= Seq::<(Seq<char>, SymbolKind, nat, nat)>::empty());
    }
    collect(&tree.root, source, &mut table);
    assert(Seq::<(Seq<char>, SymbolKind, nat, nat)>::empty() + node_symbols(tree.root, sbytes(source))
        =~= node_symbols(tree.root, sbytes(source)));
    table
}

/// Whether every node's rows and columns leave room for 1-based numbering.
pub fn positions_fit_exec(n: &SyntaxNode) -> (r: bool)
    ensures
        r == positions_fit(*n),
    decreases n,
{
    if n.start_row == usize::MAX || n.start_column == usize::MAX || n.end_row == usize::MAX || n.end_column
        == usize::MAX {
        return false;
    }
    let mut k: usize = 0;
    proof {
        assert(n.children@.subrange(0, 0) =~= Seq::<SyntaxNode>::empty());
    }
    while k < n.children.len()
        invariant
            k <= n.children@.len(),
            children_fit(n.children@.subrange(0, k as int)),
        decreases n.children@.len() - k,
    {
        proof {
            let sub = n.children@.subrange(0, k + 1);
            assert(sub.drop_last() =~= n.children@.subrange(0, k as int));
            assert(sub.last() == n.children@[k as int]);
        }
        if !positions_fit_exec(&n.children[k]) {
            proof {
                lemma_children_fit_prefix(n.children@, k as int);
            }
            return false;
        }
        k = k + 1;
    }
    assert(n.children@.subrange(0, n.children@.len() as int) =~= n.children@);
    true
}

proof fn lemma_children_fit_prefix(cs: Seq<SyntaxNode>, k: int)
    requires
        0 <= k < cs.len(),
        !positions_fit(cs[k]),
    ensures
        !children_fit(cs),
    decreases cs.len(),
{
    if children_fit(cs) {
        lemma_children_fit(cs, k);
    }
}

impl SyntaxNode {
    /// The source text the node spans (`None` when its bounds do not fall on
    /// character boundaries of `source`).
    pub fn text<'s>(&self, source: &'s str) -> (r: Option<&'s str>)
        ensures
            match r {
                Some(t) => node_text(*self, sbytes(source)) == Some(t@),
                None => node_text(*self, sbytes(source)) is None,
            },
    {
        node_text_exec(self, source)
    }

    /// Number of children (named and anonymous).
    pub fn child_count(&self) -> (r: usize)
        ensures
            r == self.children@.len(),
    {
        self.children.len()
    }
}

/// Two nodes carry the same values, down to their descendants.
pub open spec fn same_node(a: SyntaxNode, b: SyntaxNode) -> bool
    decreases a,
{
    &&& a.kind@ == b.kind@
    &&& opt_text(a.field) == opt_text(b.field)
    &&& a.start_byte == b.start_byte && a.end_byte == b.end_byte
    &&& a.start_row == b.start_row && a.start_column == b.start_column
    &&& a.end_row == b.end_row && a.end_column == b.end_column
    &&& same_children(a.children@, b.children@)
}

pub open spec fn same_children(a: Seq<SyntaxNode>, b: Seq<SyntaxNode>) -> bool
    decreases a,
{
    a.len() == b.len() && (a.len() == 0 || (same_children(a.drop_last(), b.drop_last()) && same_node(
        a.last(),
        b.last(),
    )))
}

proof fn lemma_same_fit(a: SyntaxNode, b: SyntaxNode)
    requires
        same_node(a, b),
        positions_fit(b),
    ensures
        positions_fit(a),
    decreases a,
{
    lemma_same_children_fit(a.children@, b.children@);
}

proof fn lemma_same_children_fit(a: Seq<SyntaxNode>, b: Seq<SyntaxNode>)
    requires
        same_children(a, b),
        children_fit(b),
    ensures
        children_fit(a),
    decreases a,
{
    if a.len() > 0 {
        lemma_same_children_fit(a.drop_last(), b.drop_last());
        lemma_same_fit(a.last(), b.last());
    }
}

/// A copy of a node and its descendants.
pub fn copy_node(n: &SyntaxNode) -> (r: SyntaxNode)
    ensures
        same_node(r, *n),
        positions_fit(*n) ==> positions_fit(r),
    decreases *n,
{
    let mut children: Vec<SyntaxNode> = Vec::new();
    let mut k: usize = 0;
    while k < n.children.len()
        invariant
            k <= n.children@.len(),
            same_children(children@, n.children@.subrange(0, k as int)),
        decreases n.children@.len() - k,
    {
        let ghost prev = children@;
        assert(decreases_to!(*n => n.children@[k as int]));
        let c = copy_node(&n.children[k]);
        children.push(c);
        proof {
            let sub = n.children@.subrange(0, k + 1);
            assert(sub.drop_last() =~= n.children@.subrange(0, k as int));
            assert(children@.drop_last() =~= prev);
        }
        k = k + 1;
    }
    assert(n.children@.subrange(0, n.children@.len() as int) =~= n.children@);
    let field = match &n.field {
        Some(f) => Some(f.clone()),
        None => None,
    };
    let r = SyntaxNode {
        kind: n.kind.clone(),
        field,
        start_byte: n.start_byte,
        end_byte: n.end_byte,
        start_row: n.start_row,
        start_column: n.start_column,
        end_row: n.end_row,
        end_column: n.end_column,
        children,
    };
    proof {
        if positions_fit(*n) {
            lemma_same_fit(r, *n);
        }
    }
    r
}

/// A copy of a parsed tree (the tree-sitter tree itself is shared).
pub fn copy_tree(t: &SyntaxTree) -> (r: SyntaxTree)
    ensures
        same_node(r.root, t.root),
        r.language == t.language,
        r.has_error == t.has_error,
        r.raw is Some <==> t.raw is Some,
        positions_fit(t.root) ==> positions_fit(r.root),
{
    let raw = match &t.raw {
        Some(parsed) => Some(parsed.copy()),
        None => None,
    };
    SyntaxTree { language: t.language, root: copy_node(&t.root), has_error: t.has_error, raw }
}

} // verus!
