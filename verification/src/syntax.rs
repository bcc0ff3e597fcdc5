//! Syntax trees: tree-sitter parses the source, and the library keeps an
//! owned copy of the tree as plain values (kinds, fields, byte ranges and
//! positions) that every analysis walks.

use vstd::prelude::*;
use vstd::string::*;
use crate::language::Language;
use crate::text::{sbytes, contains_bytes, contains_seq, str_eq};

verus! {

#[verifier::external_type_specification]
#[verifier::external_body]
pub struct ExTsTree(tree_sitter::Tree);

#[verifier::external_type_specification]
#[verifier::external_body]
pub struct ExTsNode<'a>(tree_sitter::Node<'a>);

#[verifier::external_type_specification]
#[verifier::external_body]
pub struct ExTsParser(tree_sitter::Parser);


/// Walks stop descending below this depth, which bounds every recursive
/// analysis of deeply nested (generated or minified) code.
pub const MAX_AST_DEPTH: usize = 1024;

/// One node of a parsed syntax tree.
#[derive(Debug)]
pub struct SyntaxNode {
    /// The grammar kind (e.g. `method_invocation`).
    pub kind: String,
    /// The field name under which this node hangs from its parent.
    pub field: Option<String>,
    pub start_byte: usize,
    pub end_byte: usize,
    /// Zero-based row and byte column of the node's start and end.
    pub start_row: usize,
    pub start_column: usize,
    pub end_row: usize,
    pub end_column: usize,
    /// All children (named and anonymous), in source order.
    pub children: Vec<SyntaxNode>,
}

/// A tree-sitter tree together with the language and text it was parsed
/// from. Its fields are private to the crate and only `ts_parse` makes one
/// (`copy` clones one), so the tree is always the one tree-sitter gives for
/// `text` in `language`.
#[derive(Debug)]
pub struct ParsedSource {
    pub(crate) tree: tree_sitter::Tree,
    pub(crate) language: Language,
    pub(crate) text: String,
}

impl ParsedSource {
    /// The text the tree was parsed from.
    pub closed spec fn text_view(&self) -> Seq<char> {
        self.text@
    }

    /// The language the tree was parsed with.
    pub closed spec fn language_view(&self) -> Language {
        self.language
    }

    pub fn text(&self) -> (r: &str)
        ensures
            r@ == self.text_view(),
    {
        self.text.as_str()
    }

    pub fn language(&self) -> (r: Language)
        ensures
            r == self.language_view(),
    {
        self.language
    }

    /// Another handle on the same parsed tree, with its text.
    pub fn copy(&self) -> (r: ParsedSource)
        ensures
            r.text_view() == self.text_view(),
            r.language_view() == self.language_view(),
    {
        ParsedSource { tree: ts_tree_clone(&self.tree), language: self.language, text: self.text.clone() }
    }
}

/// A parsed file.
#[derive(Debug)]
pub struct SyntaxTree {
    pub language: Language,
    pub root: SyntaxNode,
    /// Whether the parser recovered from syntax errors somewhere in the tree.
    pub has_error: bool,
    /// The tree-sitter tree itself with the text it was parsed from, for
    /// running queries (absent for a placeholder tree).
    pub raw: Option<ParsedSource>,
}

#[derive(Debug, PartialEq, Eq)]
pub enum ParseError {
    UnsupportedLanguage(Language),
    InvalidSource(String),
}

impl Clone for ParseError {
    fn clone(&self) -> (r: Self)
        ensures
            r == *self,
    {
        match self {
            ParseError::UnsupportedLanguage(l) => ParseError::UnsupportedLanguage(*l),
            ParseError::InvalidSource(m) => ParseError::InvalidSource(m.clone()),
        }
    }
}

/// A tree-sitter parser with the language it was given (`Unknown` while
/// none is set). Its fields are private: only `ts_parser_new` and
/// `ts_set_language` set them.
pub struct TsParser {
    parser: tree_sitter::Parser,
    language: Language,
}

impl TsParser {
    /// The language set on the parser, if any.
    pub closed spec fn language_view(&self) -> Option<Language> {
        if self.language == Language::Unknown {
            None
        } else {
            Some(self.language)
        }
    }
}

/// Whether the grammar crate of `language` was generated for a version of
/// tree-sitter that this tree-sitter accepts.
pub uninterp spec fn grammar_supported(language: Language) -> bool;

/// `tree_sitter::Parser::new`: a parser with no language set.
#[verifier::external_body]
fn ts_parser_new() -> (r: TsParser)
    ensures
        r.language_view() is None,
{
    TsParser { parser: tree_sitter::Parser::new(), language: Language::Unknown }
}

/// `tree_sitter::Parser::set_language` with the grammar crate of `language`:
/// it succeeds exactly when the grammar's version is one the parser
/// accepts, and then the parser has that language; the error is rendered
/// as text.
#[verifier::external_body]
fn ts_set_language(parser: &mut TsParser, language: Language) -> (r: Result<(), String>)
    requires
        language != Language::Unknown,
    ensures
        r is Ok <==> grammar_supported(language),
        r is Ok ==> final(parser).language_view() == Some(language),
        r is Err ==> final(parser).language_view() == old(parser).language_view(),
{
    let grammar = match language {
        Language::Java => tree_sitter_java::LANGUAGE,
        Language::JavaScript => tree_sitter_javascript::LANGUAGE,
        Language::TypeScript => tree_sitter_typescript::LANGUAGE_TYPESCRIPT,
        Language::Python => tree_sitter_python::LANGUAGE,
        Language::Go | Language::Unknown => tree_sitter_go::LANGUAGE,
    };
    match parser.parser.set_language(&grammar.into()) {
        Ok(()) => {
            parser.language = language;
            Ok(())
        },
        Err(error) => Err(error.to_string()),
    }
}

/// `tree_sitter::Parser::parse` on a complete source text, kept with the
/// text and the parser's language. With a language set (and no timeout or
/// cancellation flag, which this library never sets) it gives a tree.
#[verifier::external_body]
fn ts_parse(parser: &mut TsParser, source: &str) -> (r: Option<ParsedSource>)
    requires
        old(parser).language_view() is Some,
    ensures
        r is Some,
        r matches Some(p) ==> p.text_view() == source@ && Some(p.language_view()) == old(parser).language_view(),
{
    match parser.parser.parse(source, None) {
        Some(tree) => Some(ParsedSource { tree, language: parser.language, text: source.to_string() }),
        None => None,
    }
}

/// `tree_sitter::Tree::clone`: another handle on the same parsed tree.
#[verifier::external_body]
fn ts_tree_clone(tree: &tree_sitter::Tree) -> tree_sitter::Tree {
    tree.clone()
}

/// A node of a parsed tree, with where it stands: the language and text
/// the tree was parsed from, and the child indices that lead to it from
/// the root. Its fields are private: only `ts_root` and `ts_child` make one.
pub struct TsNode<'a> {
    node: tree_sitter::Node<'a>,
    language: Ghost<Language>,
    text: Ghost<Seq<char>>,
    path: Ghost<Seq<int>>,
}

impl<'a> TsNode<'a> {
    pub closed spec fn language_view(&self) -> Language {
        self.language@
    }

    pub closed spec fn text_view(&self) -> Seq<char> {
        self.text@
    }

    /// The child indices leading to the node from the root.
    pub closed spec fn path(&self) -> Seq<int> {
        self.path@
    }
}

/// The grammar kind of the node at `path` in the tree that parsing `text`
/// with `language` gives.
pub uninterp spec fn node_kind(language: Language, text: Seq<char>, path: Seq<int>) -> Seq<char>;

/// The number of children of that node.
pub uninterp spec fn node_child_count(language: Language, text: Seq<char>, path: Seq<int>) -> usize;

/// The field name under which that node's child `index` hangs.
pub uninterp spec fn node_field_name(language: Language, text: Seq<char>, path: Seq<int>, index: int) -> Option<
    Seq<char>,
>;

/// The node's first byte.
pub uninterp spec fn node_start_byte(language: Language, text: Seq<char>, path: Seq<int>) -> usize;

/// The byte after the node's last byte.
pub uninterp spec fn node_end_byte(language: Language, text: Seq<char>, path: Seq<int>) -> usize;

/// The node's start as (row, byte column), zero based.
pub uninterp spec fn node_start_point(language: Language, text: Seq<char>, path: Seq<int>) -> (usize, usize);

/// The node's end as (row, byte column), zero based.
pub uninterp spec fn node_end_point(language: Language, text: Seq<char>, path: Seq<int>) -> (usize, usize);

/// `tree_sitter::Tree::root_node`: the node at the empty path. The tree was
/// parsed from the text it is kept with (only `ts_parse` makes a
/// `ParsedSource`).
#[verifier::external_body]
fn ts_root<'a>(parsed: &'a ParsedSource) -> (r: TsNode<'a>)
    ensures
        r.language_view() == parsed.language_view(),
        r.text_view() == parsed.text_view(),
        r.path() == Seq::<int>::empty(),
{
    TsNode { node: parsed.tree.root_node(), language: Ghost(parsed.language), text: Ghost(parsed.text@), path: Ghost(Seq::empty()) }
}

/// Whether the tree that parsing `text` with the grammar of `language`
/// gives holds a syntax error anywhere.
pub uninterp spec fn parse_has_error(language: Language, text: Seq<char>) -> bool;

/// `tree_sitter::Node::has_error` on the root of a parsed tree. The tree was
/// parsed from the text it is kept with (only `ts_parse` makes a
/// `ParsedSource`), so the answer depends on the grammar and the text alone.
#[verifier::external_body]
fn ts_has_error(parsed: &ParsedSource) -> (r: bool)
    ensures
        r == parse_has_error(parsed.language_view(), parsed.text_view()),
{
    parsed.tree.root_node().has_error()
}

/// `tree_sitter::Node::kind`.
#[verifier::external_body]
fn ts_kind(node: &TsNode) -> (r: String)
    ensures
        r@ == node_kind(node.language_view(), node.text_view(), node.path()),
{
    node.node.kind().to_string()
}

/// `tree_sitter::Node::child_count`.
#[verifier::external_body]
fn ts_child_count(node: &TsNode) -> (r: usize)
    ensures
        r == node_child_count(node.language_view(), node.text_view(), node.path()),
{
    node.node.child_count()
}

/// `tree_sitter::Node::child`: below the child count there is a child, the
/// node one index further down the path.
#[verifier::external_body]
fn ts_child<'a>(node: &TsNode<'a>, index: usize) -> (r: Option<TsNode<'a>>)
    ensures
        index < node_child_count(node.language_view(), node.text_view(), node.path()) ==> r is Some,
        r matches Some(c) ==> c.language_view() == node.language_view() && c.text_view() == node.text_view()
            && c.path() == node.path().push(index as int),
{
    match node.node.child(index) {
        Some(c) => Some(TsNode { node: c, language: Ghost(node.language@), text: Ghost(node.text@), path: Ghost(node.path@.push(index as int)) }),
        None => None,
    }
}

/// `tree_sitter::Node::field_name_for_child`.
#[verifier::external_body]
fn ts_field_name_for_child(node: &TsNode, index: usize) -> (r: Option<String>)
    requires
        index < node_child_count(node.language_view(), node.text_view(), node.path()),
    ensures
        crate::taint::opt_text(r) == node_field_name(node.language_view(), node.text_view(), node.path(), index as int),
{
    node.node.field_name_for_child(index as u32).map(|name| name.to_string())
}

/// `tree_sitter::Node::start_byte`.
#[verifier::external_body]
fn ts_start_byte(node: &TsNode) -> (r: usize)
    ensures
        r == node_start_byte(node.language_view(), node.text_view(), node.path()),
{
    node.node.start_byte()
}

/// `tree_sitter::Node::end_byte`.
#[verifier::external_body]
fn ts_end_byte(node: &TsNode) -> (r: usize)
    ensures
        r == node_end_byte(node.language_view(), node.text_view(), node.path()),
{
    node.node.end_byte()
}

/// `tree_sitter::Node::start_position`, as a (row, column) pair.
#[verifier::external_body]
fn ts_start_position(node: &TsNode) -> (r: (usize, usize))
    ensures
        r == node_start_point(node.language_view(), node.text_view(), node.path()),
{
    let point = node.node.start_position();
    (point.row, point.column)
}

/// `tree_sitter::Node::end_position`, as a (row, column) pair.
#[verifier::external_body]
fn ts_end_position(node: &TsNode) -> (r: (usize, usize))
    ensures
        r == node_end_point(node.language_view(), node.text_view(), node.path()),
{
    let point = node.node.end_position();
    (point.row, point.column)
}

/// `n` is the copy of the node at `path` of the tree that parsing `text`
/// with `language` gives, hanging under `field`, `depth` levels below the
/// root: its kind, field, byte range and positions are the node's, and its
/// children are copies of the node's children in order, except that a node
/// at `MAX_AST_DEPTH` keeps none.
pub open spec fn copy_of(
    n: SyntaxNode,
    language: Language,
    text: Seq<char>,
    path: Seq<int>,
    field: Option<Seq<char>>,
    depth: int,
) -> bool
    decreases n,
{
    &&& n.kind@ == node_kind(language, text, path)
    &&& crate::taint::opt_text(n.field) == field
    &&& n.start_byte == node_start_byte(language, text, path)
    &&& n.end_byte == node_end_byte(language, text, path)
    &&& (n.start_row, n.start_column) == node_start_point(language, text, path)
    &&& (n.end_row, n.end_column) == node_end_point(language, text, path)
    &&& if depth >= MAX_AST_DEPTH {
        n.children@.len() == 0
    } else {
        &&& n.children@.len() == node_child_count(language, text, path)
        &&& children_copy(n.children@, language, text, path, depth)
    }
}

/// Each `cs[i]` is the copy of child `i` of the node at `path`.
pub open spec fn children_copy(cs: Seq<SyntaxNode>, language: Language, text: Seq<char>, path: Seq<int>, depth: int) -> bool
    decreases cs,
{
    cs.len() == 0 || (children_copy(cs.drop_last(), language, text, path, depth) && copy_of(
        cs.last(),
        language,
        text,
        path.push(cs.len() - 1),
        node_field_name(language, text, path, cs.len() - 1),
        depth + 1,
    ))
}

/// The tree `parse` gives for `text` in `language`: the copy of the root
/// of tree-sitter's tree.
pub open spec fn parsed_root(n: SyntaxNode, language: Language, text: Seq<char>) -> bool {
    copy_of(n, language, text, Seq::empty(), None, 0)
}

proof fn lemma_copies_agree(
    a: SyntaxNode,
    b: SyntaxNode,
    language: Language,
    text: Seq<char>,
    path: Seq<int>,
    field: Option<Seq<char>>,
    depth: int,
)
    requires
        copy_of(a, language, text, path, field, depth),
        copy_of(b, language, text, path, field, depth),
    ensures
        crate::semantic::same_node(a, b),
    decreases a,
{
    if depth < MAX_AST_DEPTH {
        lemma_children_agree(a.children@, b.children@, language, text, path, depth);
    }
}

proof fn lemma_children_agree(cs: Seq<SyntaxNode>, ds: Seq<SyntaxNode>, language: Language, text: Seq<char>, path: Seq<int>, depth: int)
    requires
        children_copy(cs, language, text, path, depth),
        children_copy(ds, language, text, path, depth),
        cs.len() == ds.len(),
    ensures
        crate::semantic::same_children(cs, ds),
    decreases cs,
{
    if cs.len() > 0 {
        lemma_children_agree(cs.drop_last(), ds.drop_last(), language, text, path, depth);
        lemma_copies_agree(
            cs.last(),
            ds.last(),
            language,
            text,
            path.push(cs.len() - 1),
            node_field_name(language, text, path, cs.len() - 1),
            depth + 1,
        );
    }
}

/// Parsing the same text in the same language twice gives the same tree.
pub proof fn lemma_parse_deterministic(a: SyntaxNode, b: SyntaxNode, language: Language, text: Seq<char>)
    requires
        parsed_root(a, language, text),
        parsed_root(b, language, text),
    ensures
        crate::semantic::same_node(a, b),
{
    lemma_copies_agree(a, b, language, text, Seq::empty(), None, 0);
}

/// Copies a tree-sitter node and its descendants; nodes at `MAX_AST_DEPTH`
/// keep no children.
fn copy_node(node: &TsNode, field: Option<String>, depth: usize) -> (r: SyntaxNode)
    ensures
        r.field == field,
        copy_of(r, node.language_view(), node.text_view(), node.path(), crate::taint::opt_text(field), depth as int),
    decreases MAX_AST_DEPTH - depth,
{
    let ghost l = node.language_view();
    let ghost t = node.text_view();
    let ghost path = node.path();
    let start_byte = ts_start_byte(node);
    let end_byte = ts_end_byte(node);
    let (start_row, start_column) = ts_start_position(node);
    let (end_row, end_column) = ts_end_position(node);
    let mut children: Vec<SyntaxNode> = Vec::new();
    if depth < MAX_AST_DEPTH {
        let count = ts_child_count(node);
        let mut i: usize = 0;
        while i < count
            invariant
                depth < MAX_AST_DEPTH,
                i <= count,
                count == node_child_count(l, t, path),
                l == node.language_view() && t == node.text_view() && path == node.path(),
                children@.len() == i,
                children_copy(children@, l, t, path, depth as int),
            decreases count - i,
        {
            match ts_child(node, i) {
                Some(child) => {
                    let name = ts_field_name_for_child(node, i);
                    let c = copy_node(&child, name, depth + 1);
                    let ghost before = children@;
                    children.push(c);
                    proof {
                        assert(children@.drop_last() =~= before);
                        assert(children@.last() == c);
                    }
                },
                None => {
                    proof {
                        assert(false);
                    }
                },
            }
            i = i + 1;
        }
    }
    SyntaxNode {
        kind: ts_kind(node),
        field,
        start_byte,
        end_byte,
        start_row,
        start_column,
        end_row,
        end_column,
        children,
    }
}

/// Whether the text contains a NUL byte.
pub open spec fn has_nul(s: Seq<u8>) -> bool {
    exists|i: int| 0 <= i < s.len() && s[i] == 0u8
}

/// A parser for one language.
#[derive(Debug)]
pub struct TreeSitterParser {
    pub language: Language,
}

impl TreeSitterParser {
    pub fn language(&self) -> (r: Language)
        ensures
            r == self.language,
    {
        self.language
    }

    /// Parses `source`. Sources holding a NUL byte are rejected, and so is
    /// the `Unknown` language; otherwise the tree comes from tree-sitter,
    /// which recovers from syntax errors and reports them via `has_error`.
    pub fn parse(&self, source: &str) -> (r: Result<SyntaxTree, ParseError>)
        ensures
            has_nul(sbytes(source)) ==> (r matches Err(ParseError::InvalidSource(m)) && m@ == "source contains NUL byte"@),
            !has_nul(sbytes(source)) && self.language == Language::Unknown ==> r == Err::<SyntaxTree, ParseError>(
                ParseError::UnsupportedLanguage(Language::Unknown),
            ),
            r matches Ok(t) ==> t.language == self.language && !has_nul(sbytes(source))
                && self.language != Language::Unknown,
            r matches Ok(t) ==> (t.raw matches Some(p) && p.text_view() == source@ && p.language_view()
                == self.language),
            r matches Ok(t) ==> t.has_error == parse_has_error(self.language, source@),
            r matches Ok(t) ==> parsed_root(t.root, self.language, source@),
            !has_nul(sbytes(source)) && self.language != Language::Unknown ==> (r is Ok <==> grammar_supported(
                self.language,
            )),
            r matches Err(ParseError::UnsupportedLanguage(l)) ==> l == Language::Unknown,
    {
        let bytes = source.as_bytes();
        let mut i: usize = 0;
        while i < bytes.len()
            invariant
                i <= bytes@.len(),
                bytes@ == sbytes(source),
                forall|j: int| 0 <= j < i ==> bytes@[j] != 0u8,
            decreases bytes@.len() - i,
        {
            if bytes[i] == 0 {
                return Err(ParseError::InvalidSource("source contains NUL byte".to_owned()));
            }
            i = i + 1;
        }
        if self.language == Language::Unknown {
            return Err(ParseError::UnsupportedLanguage(self.language));
        }
        let mut parser = ts_parser_new();
        match ts_set_language(&mut parser, self.language) {
            Ok(()) => {},
            Err(message) => {
                return Err(ParseError::InvalidSource(message));
            },
        }
        match ts_parse(&mut parser, source) {
            None => Err(ParseError::InvalidSource("parser returned no syntax tree".to_owned())),
            Some(parsed) => {
                let root = {
                    let node = ts_root(&parsed);
                    copy_node(&node, None, 0)
                };
                let has_error = ts_has_error(&parsed);
                Ok(SyntaxTree { language: self.language, root, has_error, raw: Some(parsed) })
            },
        }
    }
}

/// A parser turns source text of one language into a syntax tree.
pub trait SourceParser {
    /// The language the parser reads.
    fn language(&self) -> Language;

    /// Parses `source`.
    fn parse(&self, source: &str) -> Result<SyntaxTree, ParseError>;
}

impl SourceParser for TreeSitterParser {
    fn language(&self) -> (r: Language)
        ensures
            r == self.language,
    {
        self.language
    }

    /// See `TreeSitterParser::parse`.
    fn parse(&self, source: &str) -> (r: Result<SyntaxTree, ParseError>)
        ensures
            has_nul(sbytes(source)) ==> (r matches Err(ParseError::InvalidSource(m)) && m@ == "source contains NUL byte"@),
            !has_nul(sbytes(source)) && self.language == Language::Unknown ==> r == Err::<SyntaxTree, ParseError>(
                ParseError::UnsupportedLanguage(Language::Unknown),
            ),
            r matches Ok(t) ==> t.language == self.language && !has_nul(sbytes(source))
                && self.language != Language::Unknown,
            r matches Ok(t) ==> (t.raw matches Some(p) && p.text_view() == source@ && p.language_view()
                == self.language),
            r matches Ok(t) ==> t.has_error == parse_has_error(self.language, source@),
            r matches Ok(t) ==> parsed_root(t.root, self.language, source@),
            !has_nul(sbytes(source)) && self.language != Language::Unknown ==> (r is Ok <==> grammar_supported(
                self.language,
            )),
            r matches Err(ParseError::UnsupportedLanguage(l)) ==> l == Language::Unknown,
    {
        TreeSitterParser::parse(self, source)
    }
}

/// The name of a language as debug output shows it.
pub open spec fn language_name(l: Language) -> Seq<char> {
    match l {
        Language::Java => "Java"@,
        Language::JavaScript => "JavaScript"@,
        Language::TypeScript => "TypeScript"@,
        Language::Python => "Python"@,
        Language::Go => "Go"@,
        Language::Unknown => "Unknown"@,
    }
}

impl ParseError {
    /// The error message (`unsupported language: <L>` or
    /// `invalid source: <why>`).
    pub fn to_string(&self) -> (r: String)
        ensures
            r@ == (match self {
                ParseError::UnsupportedLanguage(l) => "unsupported language: "@ + language_name(*l),
                ParseError::InvalidSource(m) => "invalid source: "@ + m@,
            }),
    {
        match self {
            ParseError::UnsupportedLanguage(l) => {
                let mut s = "unsupported language: ".to_owned();
                let name = match l {
                    Language::Java => "Java",
                    Language::JavaScript => "JavaScript",
                    Language::TypeScript => "TypeScript",
                    Language::Python => "Python",
                    Language::Go => "Go",
                    Language::Unknown => "Unknown",
                };
                crate::text::push_str(&mut s, name);
                s
            },
            ParseError::InvalidSource(m) => {
                let mut s = "invalid source: ".to_owned();
                crate::text::push_str(&mut s, m.as_str());
                s
            },
        }
    }
}

impl SyntaxTree {
    /// The grammar kind of the root node.
    pub fn root_kind(&self) -> (r: &str)
        ensures
            r@ == self.root.kind@,
    {
        self.root.kind.as_str()
    }

    /// An empty tree standing for a file whose content is not loaded: a
    /// root with no kind, no children and no source positions.
    pub fn placeholder() -> (r: SyntaxTree)
        ensures
            r.language == Language::Unknown,
            r.root.kind@.len() == 0,
            r.root.children@.len() == 0,
            r.root.start_byte == 0 && r.root.end_byte == 0,
            r.root.start_row == 0 && r.root.start_column == 0 && r.root.end_row == 0 && r.root.end_column == 0,
            !r.has_error,
            r.raw is None,
    {
        SyntaxTree {
            language: Language::Unknown,
            root: SyntaxNode {
                kind: String::new(),
                field: None,
                start_byte: 0,
                end_byte: 0,
                start_row: 0,
                start_column: 0,
                end_row: 0,
                end_column: 0,
                children: Vec::new(),
            },
            has_error: false,
            raw: None,
        }
    }

    /// Whether the parser recovered from syntax errors.
    pub fn has_error(&self) -> (r: bool)
        ensures
            r == self.has_error,
    {
        self.has_error
    }
}

/// One parser per supported language.
#[derive(Debug)]
pub struct ParserRegistry {
    java: TreeSitterParser,
    javascript: TreeSitterParser,
    typescript: TreeSitterParser,
    python: TreeSitterParser,
    go: TreeSitterParser,
}

impl ParserRegistry {
    /// Each parser is for its own language.
    pub closed spec fn well_formed(&self) -> bool {
        &&& self.java.language == Language::Java
        &&& self.javascript.language == Language::JavaScript
        &&& self.typescript.language == Language::TypeScript
        &&& self.python.language == Language::Python
        &&& self.go.language == Language::Go
    }

    /// The parser for `language`; there is none for `Unknown`.
    pub fn parser_for(&self, language: Language) -> (r: Option<&TreeSitterParser>)
        requires
            self.well_formed(),
        ensures
            match r {
                Some(p) => language != Language::Unknown && p.language == language,
                None => language == Language::Unknown,
            },
    {
        match language {
            Language::Java => Some(&self.java),
            Language::JavaScript => Some(&self.javascript),
            Language::TypeScript => Some(&self.typescript),
            Language::Python => Some(&self.python),
            Language::Go => Some(&self.go),
            Language::Unknown => None,
        }
    }
}

impl Default for ParserRegistry {
    fn default() -> (r: Self)
        ensures
            r.well_formed(),
    {
        ParserRegistry {
            java: TreeSitterParser { language: Language::Java },
            javascript: TreeSitterParser { language: Language::JavaScript },
            typescript: TreeSitterParser { language: Language::TypeScript },
            python: TreeSitterParser { language: Language::Python },
            go: TreeSitterParser { language: Language::Go },
        }
    }
}

} // verus!
