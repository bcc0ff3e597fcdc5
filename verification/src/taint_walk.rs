//! The taint walk: tracks tainted variables from sources to sinks in source
//! order, joins branch states, keeps loop entry taint, binds caller
//! arguments to callee parameters and follows callee return values.
//!
//! Taint is intraprocedural per function body; a callee body is analysed
//! against the caller's argument taint and then forgotten. Every callee name
//! entered is kept on a chain, so a (mutually) recursive callee is never
//! re-entered and the walk always terminates.

use vstd::prelude::*;
use crate::language::Language;
use crate::semantic::{
    field_index, opt_node_text, children_fit, field_child, field_child_exec, kind_child, kind_child_exec, lemma_children_fit, node_text,
    node_text_exec, positions_fit,
};
use crate::syntax::{SyntaxNode, SyntaxTree};
use crate::taint::{TaintConfig, TaintFinding};
use crate::taint_engine::{
    lemma_parse_call_args_shorter, contains_identifier, is_tainted_text, parse_call, spec_contains_identifier, spec_is_tainted_text, spec_parse_call, spec_strip_string_literals,
    strings_of,
};
use crate::text::{chars_of, contains_seq, find_chars_in, push_str, sbytes, str_eq};
use crate::var_set::{names_of, VarSet};
use crate::code_graph::{after_last_dot, file_at_path, method_holding, method_on_line, CallEdge, CodeGraph, GraphSymbol, IndexedFile};

verus! {

/// `text` contains one of `patterns`.
pub open spec fn mentions(text: Seq<char>, patterns: Seq<String>) -> bool {
    exists|k: int| 0 <= k < patterns.len() && contains_seq(text, #[trigger] patterns[k]@)
}

/// Whether `pat` occurs in `text`.
pub fn contains_chars(text: &[char], pat: &[char]) -> (r: bool)
    ensures
        r == contains_seq(text@, pat@),
{
    let n = text.len();
    assert(text@.subrange(0, n as int) =~= text@);
    match find_chars_in(text, pat, 0, n) {
        Some(_) => true,
        None => false,
    }
}

/// Whether `text` contains one of `patterns` (`str::contains` on each).
pub fn mentions_any(text: &str, patterns: &Vec<String>) -> (r: bool)
    ensures
        r == mentions(text@, patterns@),
{
    let cs = chars_of(text);
    let mut k: usize = 0;
    while k < patterns.len()
        invariant
            k <= patterns@.len(),
            cs@ == text@,
            forall|m: int| 0 <= m < k ==> !contains_seq(text@, #[trigger] patterns@[m]@),
        decreases patterns@.len() - k,
    {
        let pat = chars_of(patterns[k].as_str());
        if contains_chars(cs.as_slice(), pat.as_slice()) {
            return true;
        }
        k = k + 1;
    }
    false
}

/// `text` contains `pat` also inside any text that surrounds it.
pub proof fn lemma_mentions_in_context(a: Seq<char>, text: Seq<char>, b: Seq<char>, patterns: Seq<String>)
    requires
        mentions(text, patterns),
    ensures
        mentions(a + text + b, patterns),
{
    let k = choose|k: int| 0 <= k < patterns.len() && contains_seq(text, #[trigger] patterns[k]@);
    let i = choose|i: int| crate::text::occurs_at(text, patterns[k]@, i);
    let p = patterns[k]@;
    assert((a + text + b).subrange(a.len() + i, a.len() + i + p.len()) =~= text.subrange(i, i + p.len()));
    assert(crate::text::occurs_at(a + text + b, p, a.len() + i));
}

// ---------- grammar kinds ----------

/// Function-like declarations: each is its own taint scope.
pub open spec fn spec_method_like(language: Language, kind: Seq<char>) -> bool {
    match language {
        Language::Java => kind == "method_declaration"@ || kind == "constructor_declaration"@,
        Language::JavaScript | Language::TypeScript => kind == "function_declaration"@ || kind
            == "function_expression"@ || kind == "arrow_function"@ || kind == "method_definition"@,
        Language::Python => kind == "function_definition"@,
        Language::Go => kind == "function_declaration"@ || kind == "method_declaration"@,
        Language::Unknown => false,
    }
}

pub fn is_method_like(language: Language, kind: &str) -> (r: bool)
    ensures
        r == spec_method_like(language, kind@),
{
    match language {
        Language::Java => str_eq(kind, "method_declaration") || str_eq(kind, "constructor_declaration"),
        Language::JavaScript | Language::TypeScript => str_eq(kind, "function_declaration") || str_eq(
            kind,
            "function_expression",
        ) || str_eq(kind, "arrow_function") || str_eq(kind, "method_definition"),
        Language::Python => str_eq(kind, "function_definition"),
        Language::Go => str_eq(kind, "function_declaration") || str_eq(kind, "method_declaration"),
        Language::Unknown => false,
    }
}

/// Local variable declarations.
pub open spec fn spec_declaration(language: Language, kind: Seq<char>) -> bool {
    match language {
        Language::JavaScript | Language::TypeScript => kind == "lexical_declaration"@ || kind
            == "variable_declaration"@,
        Language::Go => kind == "var_spec"@,
        _ => kind == "local_variable_declaration"@,
    }
}

pub fn is_declaration(language: Language, kind: &str) -> (r: bool)
    ensures
        r == spec_declaration(language, kind@),
{
    match language {
        Language::JavaScript | Language::TypeScript => str_eq(kind, "lexical_declaration") || str_eq(
            kind,
            "variable_declaration",
        ),
        Language::Go => str_eq(kind, "var_spec"),
        _ => str_eq(kind, "local_variable_declaration"),
    }
}

/// Assignments.
pub open spec fn spec_assignment(language: Language, kind: Seq<char>) -> bool {
    match language {
        Language::Python => kind == "assignment"@,
        Language::Go => kind == "assignment_statement"@ || kind == "short_var_declaration"@,
        _ => kind == "assignment_expression"@,
    }
}

pub fn is_assignment(language: Language, kind: &str) -> (r: bool)
    ensures
        r == spec_assignment(language, kind@),
{
    match language {
        Language::Python => str_eq(kind, "assignment"),
        Language::Go => str_eq(kind, "assignment_statement") || str_eq(kind, "short_var_declaration"),
        _ => str_eq(kind, "assignment_expression"),
    }
}

/// Loops, whose bodies may run zero times.
pub open spec fn spec_loop(language: Language, kind: Seq<char>) -> bool {
    match language {
        Language::Java => kind == "while_statement"@ || kind == "do_statement"@ || kind == "for_statement"@
            || kind == "enhanced_for_statement"@,
        Language::JavaScript | Language::TypeScript => kind == "while_statement"@ || kind == "do_statement"@
            || kind == "for_statement"@ || kind == "for_in_statement"@,
        Language::Python => kind == "while_statement"@ || kind == "for_statement"@,
        Language::Go => kind == "for_statement"@,
        Language::Unknown => false,
    }
}

pub fn is_loop(language: Language, kind: &str) -> (r: bool)
    ensures
        r == spec_loop(language, kind@),
{
    match language {
        Language::Java => str_eq(kind, "while_statement") || str_eq(kind, "do_statement") || str_eq(
            kind,
            "for_statement",
        ) || str_eq(kind, "enhanced_for_statement"),
        Language::JavaScript | Language::TypeScript => str_eq(kind, "while_statement") || str_eq(
            kind,
            "do_statement",
        ) || str_eq(kind, "for_statement") || str_eq(kind, "for_in_statement"),
        Language::Python => str_eq(kind, "while_statement") || str_eq(kind, "for_statement"),
        Language::Go => str_eq(kind, "for_statement"),
        Language::Unknown => false,
    }
}

/// Call expressions.
pub open spec fn spec_call(language: Language, kind: Seq<char>) -> bool {
    match language {
        Language::Java => kind == "method_invocation"@ || kind == "object_creation_expression"@,
        Language::JavaScript | Language::TypeScript => kind == "call_expression"@,
        Language::Python => kind == "call"@,
        Language::Go => kind == "call_expression"@,
        Language::Unknown => false,
    }
}

pub fn is_call(language: Language, kind: &str) -> (r: bool)
    ensures
        r == spec_call(language, kind@),
{
    match language {
        Language::Java => str_eq(kind, "method_invocation") || str_eq(kind, "object_creation_expression"),
        Language::JavaScript | Language::TypeScript => str_eq(kind, "call_expression"),
        Language::Python => str_eq(kind, "call"),
        Language::Go => str_eq(kind, "call_expression"),
        Language::Unknown => false,
    }
}

/// Parameter node kinds, across the supported grammars.
pub open spec fn spec_parameter(kind: Seq<char>) -> bool {
    kind == "formal_parameter"@ || kind == "identifier"@ || kind == "typed_parameter"@ || kind
        == "typed_default_parameter"@ || kind == "default_parameter"@ || kind == "required_parameter"@
        || kind == "optional_parameter"@ || kind == "pattern"@ || kind == "list_splat_pattern"@ || kind
        == "dictionary_splat_pattern"@ || kind == "parameter_declaration"@
}

fn is_parameter(kind: &str) -> (r: bool)
    ensures
        r == spec_parameter(kind@),
{
    str_eq(kind, "formal_parameter") || str_eq(kind, "identifier") || str_eq(kind, "typed_parameter")
        || str_eq(kind, "typed_default_parameter") || str_eq(kind, "default_parameter") || str_eq(
        kind,
        "required_parameter",
    ) || str_eq(kind, "optional_parameter") || str_eq(kind, "pattern") || str_eq(kind, "list_splat_pattern")
        || str_eq(kind, "dictionary_splat_pattern") || str_eq(kind, "parameter_declaration")
}

/// Number of nodes in a subtree.
pub open spec fn node_size(n: SyntaxNode) -> nat
    decreases n,
{
    1 + children_size(n.children@)
}

pub open spec fn children_size(cs: Seq<SyntaxNode>) -> nat
    decreases cs,
{
    if cs.len() == 0 {
        0
    } else {
        children_size(cs.drop_last()) + node_size(cs.last())
    }
}

/// Each child is smaller than its parent.
pub proof fn lemma_child_smaller(n: SyntaxNode, i: int)
    requires
        0 <= i < n.children@.len(),
    ensures
        node_size(n.children@[i]) < node_size(n),
{
    lemma_children_size(n.children@, i);
}

proof fn lemma_children_size(cs: Seq<SyntaxNode>, i: int)
    requires
        0 <= i < cs.len(),
    ensures
        node_size(cs[i]) <= children_size(cs),
    decreases cs.len(),
{
    if i < cs.len() - 1 {
        lemma_children_size(cs.drop_last(), i);
    }
}

// ---------- state ----------

/// A function definition the walk can enter: its declaration node and the
/// source text of the file it lives in.
pub struct Callee<'a> {
    pub name: String,
    pub node: &'a SyntaxNode,
    pub source: &'a str,
}

/// What stays fixed during one analysis.
pub struct Engine<'a> {
    pub config: &'a TaintConfig,
    pub language: Language,
    pub source: &'a str,
    /// Every function the walk may enter, in resolution order.
    pub callees: Vec<Callee<'a>>,
}

/// What the walk updates.
pub struct Flow {
    pub tainted: VarSet,
    /// Variables assigned since the current branch began.
    pub touched: VarSet,
    pub findings: Vec<TaintFinding>,
}

/// A finding names a configured sink and what carried the taint into it.
pub open spec fn reports_sink(config: TaintConfig, f: TaintFinding) -> bool {
    mentions(f.sink@, config.sinks@) && f.tainted@.len() > 0
}

pub open spec fn all_report_sinks(config: TaintConfig, fs: Seq<TaintFinding>) -> bool {
    forall|i: int| 0 <= i < fs.len() ==> reports_sink(config, #[trigger] fs[i])
}

impl Flow {
    pub open spec fn ok(&self, config: TaintConfig) -> bool {
        self.tainted.wf() && self.touched.wf() && all_report_sinks(config, self.findings@)
    }
}

/// `after` keeps every finding of `before`, in order, and adds only
/// findings that name a sink.
pub open spec fn grows(config: TaintConfig, before: Flow, after: Flow) -> bool {
    &&& after.ok(config)
    &&& before.findings@.len() <= after.findings@.len()
    &&& forall|i: int| 0 <= i < before.findings@.len() ==> after.findings@[i] == #[trigger] before.findings@[i]
}

impl<'a> Engine<'a> {
    /// The names of the functions the walk may enter.
    pub open spec fn names(&self) -> Set<Seq<char>> {
        self.callees@.map_values(|c: Callee<'a>| c.name@).to_set()
    }

    /// `f` is at a node of one of the functions the walk may enter whose
    /// text names a sink.
    pub open spec fn callee_report(&self, f: TaintFinding) -> bool {
        exists|i: int|
            0 <= i < self.callees@.len() && site_in(
                *(#[trigger] self.callees@[i]).node,
                sbytes(self.callees@[i].source),
                *self.config,
                f,
            )
    }

    /// Every finding `after` adds to `before` is at a node of a function
    /// the walk may enter.
    pub open spec fn adds_callee_reports(&self, before: Seq<TaintFinding>, after: Seq<TaintFinding>) -> bool {
        forall|i: int| before.len() <= i < after.len() ==> self.callee_report(#[trigger] after[i])
    }

    /// Every finding `after` adds to `before` lies at a node of `n` whose
    /// text names a sink, or at one of a function the walk may enter.
    pub open spec fn adds_sites(&self, n: SyntaxNode, src: Seq<u8>, before: Seq<TaintFinding>, after: Seq<TaintFinding>) -> bool {
        forall|i: int|
            before.len() <= i < after.len() ==> site_in(n, src, *self.config, #[trigger] after[i]) || self.callee_report(after[i])
    }

    proof fn lemma_reports_chain(&self, a: Seq<TaintFinding>, b: Seq<TaintFinding>, c: Seq<TaintFinding>)
        requires
            self.adds_callee_reports(a, b),
            self.adds_callee_reports(b, c),
            a.len() <= b.len() <= c.len(),
            forall|i: int| 0 <= i < b.len() ==> c[i] == b[i],
        ensures
            self.adds_callee_reports(a, c),
    {
        assert forall|i: int| a.len() <= i < c.len() implies self.callee_report(#[trigger] c[i]) by {
            if i < b.len() {
                assert(c[i] == b[i]);
            }
        }
    }

    proof fn lemma_sites_chain(&self, n: SyntaxNode, src: Seq<u8>, a: Seq<TaintFinding>, b: Seq<TaintFinding>, c: Seq<TaintFinding>)
        requires
            self.adds_sites(n, src, a, b),
            self.adds_sites(n, src, b, c),
            a.len() <= b.len() <= c.len(),
            forall|i: int| 0 <= i < b.len() ==> c[i] == b[i],
        ensures
            self.adds_sites(n, src, a, c),
    {
        assert forall|i: int| a.len() <= i < c.len() implies site_in(n, src, *self.config, #[trigger] c[i]) || self.callee_report(
            c[i],
        ) by {
            if i < b.len() {
                assert(c[i] == b[i]);
            }
        }
    }

    proof fn lemma_sites_of_reports(&self, n: SyntaxNode, src: Seq<u8>, a: Seq<TaintFinding>, b: Seq<TaintFinding>)
        requires
            self.adds_callee_reports(a, b),
        ensures
            self.adds_sites(n, src, a, b),
    {
        assert forall|i: int| a.len() <= i < b.len() implies site_in(n, src, *self.config, #[trigger] b[i]) || self.callee_report(
            b[i],
        ) by {
            assert(self.callee_report(b[i]));
        }
    }

    proof fn lemma_sites_of_child(&self, n: SyntaxNode, k: int, src: Seq<u8>, a: Seq<TaintFinding>, b: Seq<TaintFinding>)
        requires
            0 <= k < n.children@.len(),
            self.adds_sites(n.children@[k], src, a, b),
        ensures
            self.adds_sites(n, src, a, b),
    {
        assert forall|i: int| a.len() <= i < b.len() implies site_in(n, src, *self.config, #[trigger] b[i]) || self.callee_report(
            b[i],
        ) by {
            if site_in(n.children@[k], src, *self.config, b[i]) {
                lemma_site_in_child(n, k, src, *self.config, b[i]);
            }
        }
    }

    /// Findings at a node of callee `index` are callee reports.
    proof fn lemma_reports_of_callee(&self, index: int, a: Seq<TaintFinding>, b: Seq<TaintFinding>)
        requires
            0 <= index < self.callees@.len(),
            self.adds_sites(*self.callees@[index].node, sbytes(self.callees@[index].source), a, b),
        ensures
            self.adds_callee_reports(a, b),
    {
        assert forall|i: int| a.len() <= i < b.len() implies self.callee_report(#[trigger] b[i]) by {
            if site_in(*self.callees@[index].node, sbytes(self.callees@[index].source), *self.config, b[i]) {
                assert(0 <= index < self.callees@.len() && site_in(
                    *self.callees@[index].node,
                    sbytes(self.callees@[index].source),
                    *self.config,
                    b[i],
                ));
            }
        }
    }

    /// Walking `n` from tainted `t0` and assigned `u0` ended with `t1` and
    /// `u1` and added the findings past `f0` in `f1`: from every state whose
    /// tainted variables include `t0` and whose assigned ones are `u0`, the
    /// tainted variables stay within what `may_walk` gives, the assigned
    /// ones are what it gives, and each added finding is one `may_reports`
    /// allows or lies in a function the walk may enter.
    pub open spec fn walk_bounded(
        &self,
        n: SyntaxNode,
        t0: Set<Seq<char>>,
        u0: Set<Seq<char>>,
        t1: Set<Seq<char>>,
        u1: Set<Seq<char>>,
        f0: Seq<TaintFinding>,
        f1: Seq<TaintFinding>,
    ) -> bool {
        forall|st: (Set<Seq<char>>, Set<Seq<char>>)|
            #![trigger may_walk(self.language, *self.config, self.names(), n, sbytes(self.source), st)]
            t0.subset_of(st.0) && u0 == st.1 ==> {
                &&& t1.subset_of(may_walk(self.language, *self.config, self.names(), n, sbytes(self.source), st).0)
                &&& u1 == may_walk(self.language, *self.config, self.names(), n, sbytes(self.source), st).1
                &&& forall|i: int|
                    f0.len() <= i < f1.len() ==> self.callee_report(#[trigger] f1[i]) || may_reports(
                        self.language,
                        *self.config,
                        self.names(),
                        n,
                        sbytes(self.source),
                        st,
                        f1[i],
                    )
            }
    }

    /// `walk_bounded` for the nodes `cs` walked in order.
    pub open spec fn children_bounded(
        &self,
        cs: Seq<SyntaxNode>,
        t0: Set<Seq<char>>,
        u0: Set<Seq<char>>,
        t1: Set<Seq<char>>,
        u1: Set<Seq<char>>,
        f0: Seq<TaintFinding>,
        f1: Seq<TaintFinding>,
    ) -> bool {
        forall|st: (Set<Seq<char>>, Set<Seq<char>>)|
            #![trigger may_children(self.language, *self.config, self.names(), cs, sbytes(self.source), st)]
            t0.subset_of(st.0) && u0 == st.1 ==> {
                &&& t1.subset_of(may_children(self.language, *self.config, self.names(), cs, sbytes(self.source), st).0)
                &&& u1 == may_children(self.language, *self.config, self.names(), cs, sbytes(self.source), st).1
                &&& forall|i: int|
                    f0.len() <= i < f1.len() ==> self.callee_report(#[trigger] f1[i]) || children_reports(
                        self.language,
                        *self.config,
                        self.names(),
                        cs,
                        sbytes(self.source),
                        st,
                        f1[i],
                    )
            }
    }

    /// How many enterable names are not on `chain` yet: the walk's fuel.
    pub open spec fn remaining(&self, chain: Seq<String>) -> nat {
        self.names().difference(names_of(chain).to_set()).len()
    }

    pub open spec fn wf(&self) -> bool {
        forall|i: int| 0 <= i < self.callees@.len() ==> positions_fit(*(#[trigger] self.callees@[i]).node)
    }
}

pub proof fn lemma_remaining_push(names: Set<Seq<char>>, c1: Seq<Seq<char>>, c2: Seq<Seq<char>>, n: Seq<char>)
    requires
        names.finite(),
        names.contains(n),
        !c1.contains(n),
        c2 == c1.push(n),
    ensures
        names.difference(c2.to_set()).len() < names.difference(c1.to_set()).len(),
{
    let a = names.difference(c1.to_set());
    let b = names.difference(c2.to_set());
    assert(b =~= a.remove(n)) by {
        assert forall|x| b.contains(x) <==> a.remove(n).contains(x) by {
            if c2.contains(x) && x != n {
                let j = c2.index_of(x);
                assert(j < c1.len());
                assert(c1[j] == x);
            }
            if c1.contains(x) {
                let j = c1.index_of(x);
                assert(c2[j] == x);
            }
            if x == n {
                assert(c2[c1.len() as int] == x);
            }
        }
    }
    assert(a.contains(n));
    vstd::set::axiom_set_difference_finite(names, c1.to_set());
    vstd::set::axiom_set_remove_len(a, n);
}

/// A copy of `chain` with `name` added at the end.
fn extended(chain: &Vec<String>, name: &str) -> (r: Vec<String>)
    ensures
        names_of(r@) == names_of(chain@).push(name@),
        r@.len() == chain@.len() + 1,
        r@.last()@ == name@,
{
    let mut out: Vec<String> = Vec::new();
    let mut k: usize = 0;
    while k < chain.len()
        invariant
            k <= chain@.len(),
            names_of(out@) == names_of(chain@).subrange(0, k as int),
        decreases chain@.len() - k,
    {
        let ghost prev = names_of(out@);
        let c = chain[k].clone();
        out.push(c);
        assert(names_of(out@) =~= prev.push(chain@[k as int]@));
        k = k + 1;
        assert(names_of(out@) =~= names_of(chain@).subrange(0, k as int));
    }
    let ghost prev = names_of(out@);
    out.push(name.to_string());
    assert(names_of(chain@).subrange(0, chain@.len() as int) =~= names_of(chain@));
    assert(names_of(out@) =~= prev.push(name@));
    assert(names_of(out@)[chain@.len() as int] == out@.last()@);
    out
}

pub fn chain_contains(chain: &Vec<String>, name: &str) -> (r: bool)
    ensures
        r == names_of(chain@).contains(name@),
{
    let mut k: usize = 0;
    while k < chain.len()
        invariant
            k <= chain@.len(),
            forall|m: int| 0 <= m < k ==> chain@[m]@ != name@,
        decreases chain@.len() - k,
    {
        if str_eq(chain[k].as_str(), name) {
            assert(names_of(chain@)[k as int] == name@);
            return true;
        }
        k = k + 1;
    }
    proof {
        if names_of(chain@).contains(name@) {
            let j = names_of(chain@).index_of(name@);
            assert(names_of(chain@)[j] == chain@[j]@);
        }
    }
    false
}

/// `i` is the first callee named `name`.
pub open spec fn first_named<'a>(callees: Seq<Callee<'a>>, name: Seq<char>, i: int) -> bool {
    &&& 0 <= i < callees.len()
    &&& callees[i].name@ == name
    &&& forall|j: int| 0 <= j < i ==> (#[trigger] callees[j]).name@ != name
}

/// The nodes a walk of a callee body meets under `n`: every descendant
/// outside nested functions.
pub open spec fn body_visits(language: Language, n: SyntaxNode, m: SyntaxNode) -> bool
    decreases n,
{
    !spec_method_like(language, n.kind@) && (n == m || exists|k: int|
        0 <= k < n.children@.len() && body_visits(language, #[trigger] n.children@[k], m))
}

/// Some call met under `n` names a sink and contains a source.
pub open spec fn has_exposed(language: Language, n: SyntaxNode, src: Seq<u8>, config: TaintConfig) -> bool {
    exists|m: SyntaxNode| #[trigger] body_visits(language, n, m) && exposed_sink(language, m, src, config)
}

/// Some statement of a function's body has a call that names a sink and
/// contains a source.
pub open spec fn body_exposes(language: Language, method: SyntaxNode, src: Seq<u8>, config: TaintConfig) -> bool {
    exists|c: int| 0 <= c < method.children@.len() && has_exposed(language, #[trigger] method.children@[c], src, config)
}

/// Position of the first of `cs`, from `k` on, that is neither the
/// `return` keyword nor `;`.
pub open spec fn return_value_index(cs: Seq<SyntaxNode>, k: int) -> int
    decreases cs.len() - k,
{
    if k < 0 || k >= cs.len() {
        -1
    } else if cs[k].kind@ != "return"@ && cs[k].kind@ != ";"@ {
        k
    } else {
        return_value_index(cs, k + 1)
    }
}

proof fn lemma_return_value_index_bounds(cs: Seq<SyntaxNode>, k: int)
    ensures
        return_value_index(cs, k) == -1 || (k <= return_value_index(cs, k) < cs.len()),
    decreases cs.len() - k,
{
    if k >= 0 && k < cs.len() && !(cs[k].kind@ != "return"@ && cs[k].kind@ != ";"@) {
        lemma_return_value_index_bounds(cs, k + 1);
    }
}

/// The text of what a `return` statement returns.
pub open spec fn returned_text(n: SyntaxNode, src: Seq<u8>) -> Option<Seq<char>> {
    let k = return_value_index(n.children@, 0);
    if 0 <= k < n.children@.len() {
        node_text(n.children@[k], src)
    } else {
        None
    }
}

/// The nodes a search of a callee body for `return` statements meets under
/// `n`: nested functions and the inside of a `return` are not entered.
pub open spec fn return_visits(language: Language, n: SyntaxNode, m: SyntaxNode) -> bool
    decreases n,
{
    !spec_method_like(language, n.kind@) && (n == m || (n.kind@ != "return_statement"@ && exists|k: int|
        0 <= k < n.children@.len() && return_visits(language, #[trigger] n.children@[k], m)))
}

/// Some `return` statement met under `n` returns a text that contains a
/// source.
pub open spec fn returns_source(language: Language, n: SyntaxNode, src: Seq<u8>, config: TaintConfig) -> bool {
    exists|m: SyntaxNode|
        #[trigger] return_visits(language, n, m) && m.kind@ == "return_statement"@ && (returned_text(m, src) matches Some(
            t,
        ) && mentions(t, config.sources@))
}

/// Some statement of a function's body returns a text that contains a
/// source.
pub open spec fn body_returns_source(language: Language, method: SyntaxNode, src: Seq<u8>, config: TaintConfig) -> bool {
    exists|c: int| 0 <= c < method.children@.len() && returns_source(language, #[trigger] method.children@[c], src, config)
}

/// The declarator of a local declaration: a Go `var_spec` is its own,
/// otherwise the `declarator` child or the first `variable_declarator`.
pub open spec fn declarator_of(node: SyntaxNode) -> Option<SyntaxNode> {
    if node.kind@ == "var_spec"@ {
        Some(node)
    } else {
        match field_child(node, "declarator"@) {
            Some(d) => Some(d),
            None => kind_child(node, "variable_declarator"@),
        }
    }
}

/// The name a local declaration declares.
pub open spec fn declared_name(node: SyntaxNode, src: Seq<u8>) -> Option<Seq<char>> {
    match declarator_of(node) {
        Some(d) => opt_node_text(field_child(d, "name"@), src),
        None => None,
    }
}

/// The initializer text of a local declaration.
pub open spec fn declared_value(node: SyntaxNode, src: Seq<u8>) -> Option<Seq<char>> {
    match declarator_of(node) {
        Some(d) => opt_node_text(field_child(d, "value"@), src),
        None => None,
    }
}

/// The left and right side texts of an assignment.
pub open spec fn assigned_sides(node: SyntaxNode, src: Seq<u8>) -> Option<(Seq<char>, Seq<char>)> {
    match opt_node_text(field_child(node, "left"@), src) {
        Some(l) => match opt_node_text(field_child(node, "right"@), src) {
            Some(r) => Some((l, r)),
            None => None,
        },
        None => None,
    }
}

/// What assigning `value` to `target` does to the tainted set: tainted
/// afterwards or clean afterwards, always clean when the value calls a
/// sanitizer, always tainted when it does not and contains a source.
pub open spec fn assigned_taint(before: Set<Seq<char>>, after: Set<Seq<char>>, target: Seq<char>, value: Seq<char>, config: TaintConfig) -> bool {
    &&& after == before.insert(target) || after == before.remove(target)
    &&& mentions(value, config.sanitizers@) ==> after == before.remove(target)
    &&& !mentions(value, config.sanitizers@) && (mentions(value, config.sources@) || taints_text(value, before))
        ==> after == before.insert(target)
}

/// A call whose text names a sink and mentions one of the variables `s`.
pub open spec fn sink_call_tainted_by(language: Language, config: TaintConfig, m: SyntaxNode, src: Seq<u8>, s: Set<Seq<char>>) -> bool {
    &&& spec_call(language, m.kind@)
    &&& node_text(m, src) matches Some(t) && mentions(t, config.sinks@) && taints_text(t, s)
}

/// `text` mentions one of the variables `s` as an identifier, outside
/// string literals.
pub open spec fn taints_text(text: Seq<char>, s: Set<Seq<char>>) -> bool {
    exists|v: Seq<char>| #[trigger] s.contains(v) && spec_contains_identifier(spec_strip_string_literals(text), v)
}

proof fn lemma_taints_text_names(text: Seq<char>, names: Seq<Seq<char>>)
    requires
        taints_text(text, names.to_set()),
    ensures
        spec_is_tainted_text(text, names),
{
    let v = choose|v: Seq<char>| #[trigger] names.to_set().contains(v) && spec_contains_identifier(spec_strip_string_literals(text), v);
    let k = names.index_of(v);
    assert(names[k] == v);
}

proof fn lemma_taints_text_mono(text: Seq<char>, a: Set<Seq<char>>, b: Set<Seq<char>>)
    requires
        taints_text(text, a),
        a.subset_of(b),
    ensures
        taints_text(text, b),
{
    let v = choose|v: Seq<char>| #[trigger] a.contains(v) && spec_contains_identifier(spec_strip_string_literals(text), v);
    assert(b.contains(v));
}

/// Binding caller argument taint to the parameters `cs`, in order: each
/// parameter takes the next argument while that argument is tainted; the
/// first untainted (or missing) argument stops the binding. The result is
/// (next argument, stopped, names bound).
pub open spec fn bound_state(cs: Seq<SyntaxNode>, args: Seq<bool>, src: Seq<u8>) -> (int, bool, Set<Seq<char>>)
    decreases cs.len(),
{
    if cs.len() == 0 {
        (0, false, Set::empty())
    } else {
        let prev = bound_state(cs.drop_last(), args, src);
        let c = cs.last();
        if prev.1 || !spec_parameter(c.kind@) {
            prev
        } else if 0 <= prev.0 < args.len() && args[prev.0] {
            (
                prev.0 + 1,
                false,
                match opt_node_text(field_child(c, "name"@), src) {
                    Some(t) => prev.2.insert(t),
                    None => prev.2,
                },
            )
        } else {
            (prev.0, true, prev.2)
        }
    }
}

proof fn lemma_bound_state_stops(cs: Seq<SyntaxNode>, k: int, args: Seq<bool>, src: Seq<u8>)
    requires
        0 <= k <= cs.len(),
        bound_state(cs.subrange(0, k), args, src).1,
    ensures
        bound_state(cs, args, src) == bound_state(cs.subrange(0, k), args, src),
    decreases cs.len() - k,
{
    if k < cs.len() {
        let sub = cs.subrange(0, k + 1);
        assert(sub.drop_last() =~= cs.subrange(0, k));
        lemma_bound_state_stops(cs, k + 1, args, src);
    } else {
        assert(cs.subrange(0, k) =~= cs);
    }
}

/// The parameter names of `method` that caller argument taint binds.
pub open spec fn bound_names(method: SyntaxNode, args: Seq<bool>, src: Seq<u8>) -> Set<Seq<char>> {
    match field_child(method, "parameters"@) {
        Some(p) => bound_state(p.children@, args, src).2,
        None => Set::empty(),
    }
}

impl<'a> Engine<'a> {
    /// The definitions of `name`, in resolution order; a definition whose
    /// span was already listed is dropped.
    fn resolve_callees(&self, name: &str) -> (r: Vec<usize>)
        ensures
            forall|j: int| 0 <= j < r@.len() ==> (#[trigger] r@[j]) < self.callees@.len() && self.callees@[r@[j] as int].name@ == name@,
            r@.len() > 0 ==> self.names().contains(name@),
            (exists|i: int| 0 <= i < self.callees@.len() && (#[trigger] self.callees@[i]).name@ == name@) ==> r@.len() > 0,
            forall|i: int| first_named(self.callees@, name@, i) ==> r@.len() > 0 && r@[0] == i,
    {
        let mut out: Vec<usize> = Vec::new();
        let mut spans: Vec<(usize, usize)> = Vec::new();
        let mut i: usize = 0;
        while i < self.callees.len()
            invariant
                i <= self.callees@.len(),
                forall|j: int| 0 <= j < out@.len() ==> (#[trigger] out@[j]) < self.callees@.len() && self.callees@[out@[j] as int].name@ == name@,
                (exists|m: int| 0 <= m < i && (#[trigger] self.callees@[m]).name@ == name@) ==> out@.len() > 0,
                spans@.len() == out@.len(),
                out@.len() > 0 ==> first_named(self.callees@, name@, out@[0] as int),
                out@.len() == 0 ==> forall|m: int| 0 <= m < i ==> (#[trigger] self.callees@[m]).name@ != name@,
            decreases self.callees@.len() - i,
        {
            let c = &self.callees[i];
            if str_eq(c.name.as_str(), name) {
                let span = (c.node.start_byte, c.node.end_byte);
                let mut seen = false;
                let mut k: usize = 0;
                while k < spans.len()
                    invariant
                        k <= spans@.len(),
                        seen ==> spans@.len() > 0,
                    decreases spans@.len() - k,
                {
                    if spans[k].0 == span.0 && spans[k].1 == span.1 {
                        seen = true;
                    }
                    k = k + 1;
                }
                if !seen {
                    spans.push(span);
                    out.push(i);
                }
            }
            i = i + 1;
        }
        proof {
            assert forall|i: int| first_named(self.callees@, name@, i) implies out@.len() > 0 && out@[0] == i by {
                assert(self.callees@[i].name@ == name@);
                if out@.len() > 0 && out@[0] != i {
                    let f = out@[0] as int;
                    if f < i {
                        assert(self.callees@[f].name@ != name@);
                    } else {
                        assert(self.callees@[i].name@ != name@);
                    }
                }
            }
            if out@.len() > 0 {
                let c = self.callees@[out@[0] as int];
                assert(self.callees@.map_values(|c: Callee<'a>| c.name@)[out@[0] as int] == name@);
            }
        }
        out
    }
}

/// The tainted variables a sink text mentions, joined by `", "`.
pub open spec fn joined_matches(items: Seq<Seq<char>>, text: Seq<char>) -> Seq<char>
    decreases items.len(),
{
    if items.len() == 0 {
        Seq::empty()
    } else {
        let prev = joined_matches(items.drop_last(), text);
        if spec_contains_identifier(text, items.last()) {
            if prev.len() == 0 {
                items.last()
            } else {
                prev + ", "@ + items.last()
            }
        } else {
            prev
        }
    }
}

/// What a finding says carried the taint: the tainted variables the sink
/// mentions, or `tainted expression` when the taint came in through a call.
pub open spec fn taint_description(items: Seq<Seq<char>>, text: Seq<char>) -> Seq<char> {
    if joined_matches(items, text).len() == 0 {
        "tainted expression"@
    } else {
        joined_matches(items, text)
    }
}

impl<'a> Engine<'a> {
    pub fn is_sink(&self, text: &str) -> (r: bool)
        ensures
            r == mentions(text@, self.config.sinks@),
    {
        mentions_any(text, &self.config.sinks)
    }

    pub fn is_sanitizer_call(&self, value: &str) -> (r: bool)
        ensures
            r == mentions(value@, self.config.sanitizers@),
    {
        mentions_any(value, &self.config.sanitizers)
    }

    /// Records a finding at `node` for the sink text `text`.
    fn emit_finding(&self, flow: &mut Flow, node: &SyntaxNode, text: String)
        requires
            old(flow).ok(*self.config),
            mentions(text@, self.config.sinks@),
            node.start_row < usize::MAX,
            node.start_column < usize::MAX,
        ensures
            grows(*self.config, *old(flow), *final(flow)),
            final(flow).tainted == old(flow).tainted,
            final(flow).touched == old(flow).touched,
            final(flow).findings@.len() == old(flow).findings@.len() + 1,
            final(flow).findings@.last().start_byte == node.start_byte,
            final(flow).findings@.last().end_byte == node.end_byte,
            final(flow).findings@.last().start_line == node.start_row + 1,
            final(flow).findings@.last().start_column == node.start_column + 1,
            final(flow).findings@.last().sink@ == text@,
            final(flow).findings@.last().tainted@ == taint_description(names_of(old(flow).tainted.items@), text@),
    {
        let ghost items = names_of(flow.tainted.items@);
        let mut joined = String::new();
        let mut any = false;
        let mut k: usize = 0;
        proof {
            assert(items.subrange(0, 0) =~= Seq::<Seq<char>>::empty());
        }
        while k < flow.tainted.items.len()
            invariant
                k <= items.len(),
                items == names_of(flow.tainted.items@),
                joined@ == joined_matches(items.subrange(0, k as int), text@),
                any == (joined@.len() > 0),
            decreases items.len() - k,
        {
            proof {
                let sub = items.subrange(0, k + 1);
                assert(sub.drop_last() =~= items.subrange(0, k as int));
                assert(sub.last() == flow.tainted.items@[k as int]@);
            }
            let name = flow.tainted.items[k].as_str();
            if contains_identifier(text.as_str(), name) {
                assert(name@.len() > 0);
                if any {
                    push_str(&mut joined, ", ");
                }
                push_str(&mut joined, name);
                any = true;
                proof {
                    if joined_matches(items.subrange(0, k as int), text@).len() == 0 {
                        assert(joined@ =~= Seq::<char>::empty() + name@);
                    }
                }
            }
            k = k + 1;
        }
        assert(items.subrange(0, items.len() as int) =~= items);
        if !any {
            joined = "tainted expression".to_string();
        }
        proof {
            reveal_strlit("tainted expression");
        }
        let f = TaintFinding {
            start_byte: node.start_byte,
            end_byte: node.end_byte,
            start_line: node.start_row + 1,
            start_column: node.start_column + 1,
            tainted: joined,
            sink: text,
        };
        let ghost before = flow.findings@;
        flow.findings.push(f);
        proof {
            assert(flow.findings@.subrange(0, before.len() as int) =~= before);
            assert forall|i: int| 0 <= i < flow.findings@.len() implies reports_sink(*self.config, #[trigger] flow.findings@[i]) by {
                if i < before.len() {
                    assert(flow.findings@[i] == before[i]);
                }
            }
        }
    }
}

impl<'a> Engine<'a> {
    /// Taints `target` when `value` carries taint and clears it otherwise;
    /// a value that calls a sanitizer always clears it. Returns whether the
    /// target ends up tainted.
    fn apply_assignment(&self, flow: &mut Flow, target: &str, value: &str, chain: &Vec<String>) -> (r: bool)
        requires
            old(flow).ok(*self.config),
            self.wf(),
        ensures
            grows(*self.config, *old(flow), *final(flow)),
            self.adds_callee_reports(old(flow).findings@, final(flow).findings@),
            r ==> !mentions(value@, self.config.sanitizers@) && may_taint(*self.config, self.names(), value@, old(flow).tainted@),
            final(flow).touched@ == old(flow).touched@.insert(target@),
            final(flow).tainted@ == (if r {
                old(flow).tainted@.insert(target@)
            } else {
                old(flow).tainted@.remove(target@)
            }),
            mentions(value@, self.config.sanitizers@) ==> !r,
            !mentions(value@, self.config.sanitizers@) && mentions(value@, self.config.sources@) ==> r,
            !mentions(value@, self.config.sanitizers@) && taints_text(value@, old(flow).tainted@) ==> r,
        decreases self.remaining(chain@), 1int, 0int,
    {
        proof {
            if taints_text(value@, flow.tainted@) {
                lemma_taints_text_names(value@, names_of(flow.tainted.items@));
            }
        }
        flow.touched.insert(target);
        if self.is_sanitizer_call(value) {
            flow.tainted.remove(target);
            false
        } else if self.expr_is_tainted(flow, value, chain) {
            flow.tainted.insert(target);
            true
        } else {
            flow.tainted.remove(target);
            false
        }
    }

    /// Whether an expression text carries taint: it contains a source, it
    /// mentions a tainted variable, one of its call arguments carries taint,
    /// or it calls a function whose return value is tainted.
    fn expr_is_tainted(&self, flow: &mut Flow, text: &str, chain: &Vec<String>) -> (r: bool)
        requires
            old(flow).ok(*self.config),
            self.wf(),
        ensures
            grows(*self.config, *old(flow), *final(flow)),
            self.adds_callee_reports(old(flow).findings@, final(flow).findings@),
            r ==> may_taint(*self.config, self.names(), text@, old(flow).tainted@),
            final(flow).tainted == old(flow).tainted,
            final(flow).touched == old(flow).touched,
            mentions(text@, self.config.sources@) ==> r,
            spec_is_tainted_text(text@, names_of(old(flow).tainted.items@)) ==> r,
            !mentions(text@, self.config.sources@) && !spec_is_tainted_text(
                text@,
                names_of(old(flow).tainted.items@),
            ) && spec_parse_call(text@) is None ==> !r,
        decreases self.remaining(chain@), 0int, text@.len(),
    {
        let ghost start = *flow;
        if mentions_any(text, &self.config.sources) {
            return true;
        }
        assert(flow.tainted.items@.map_values(|v: String| v@) =~= names_of(flow.tainted.items@));
        if is_tainted_text(text, flow.tainted.items.as_slice()) {
            proof {
                lemma_tainted_text_set(text@, names_of(flow.tainted.items@));
            }
            return true;
        }
        let parsed = parse_call(text);
        match parsed {
            None => false,
            Some((name, args)) => {
                proof {
                    let sa = strings_of(args@);
                    lemma_parse_call_args_shorter(text@, name@, sa);
                    assert forall|k: int| 0 <= k < args@.len() implies (#[trigger] args@[k])@.len() < text@.len() by {
                        assert(sa[k] == args@[k]@);
                        assert(sa[k].len() < text@.len());
                    }
                }
                let mut k: usize = 0;
                while k < args.len()
                    invariant
                        k <= args@.len(),
                        self.wf(),
                        forall|m: int| 0 <= m < args@.len() ==> (#[trigger] args@[m])@.len() < text@.len(),
                        spec_parse_call(text@) is Some,
                        grows(*self.config, *old(flow), *flow),
                        self.adds_callee_reports(old(flow).findings@, flow.findings@),
                        flow.tainted == old(flow).tainted,
                        flow.touched == old(flow).touched,
                        spec_parse_call(text@) == Some((name@, strings_of(args@))),
                    decreases args@.len() - k,
                {
                    let ghost before = flow.findings@;
                    let hit = self.expr_is_tainted(flow, args[k].as_str(), chain);
                    proof {
                        assert forall|i: int| old(flow).findings@.len() <= i < flow.findings@.len() implies self.callee_report(
                            #[trigger] flow.findings@[i],
                        ) by {
                            if i < before.len() {
                                assert(flow.findings@[i] == before[i]);
                            }
                        }
                    }
                    if hit {
                        proof {
                            let sa = strings_of(args@);
                            assert(sa[k as int] == args@[k as int]@);
                            assert(sa[k as int].len() < text@.len());
                            assert(may_taint(*self.config, self.names(), sa[k as int], old(flow).tainted@));
                            assert(spec_parse_call(text@) == Some((name@, sa)));
                            assert(exists|j: int|
                                0 <= j < sa.len() && sa[j].len() < text@.len() && may_taint(
                                    *self.config,
                                    self.names(),
                                    #[trigger] sa[j],
                                    old(flow).tainted@,
                                ));
                            lemma_may_taint_arg(*self.config, self.names(), text@, old(flow).tainted@, name@, sa, k as int);
                        }
                        return true;
                    }
                    k = k + 1;
                }
                if chain_contains(chain, name.as_str()) {
                    return false;
                }
                let candidates = self.resolve_callees(name.as_str());
                if candidates.len() == 0 {
                    return false;
                }
                let chain2 = extended(chain, name.as_str());
                proof {
                    vstd::seq_lib::seq_to_set_is_finite(self.callees@.map_values(|c: Callee<'a>| c.name@));
                    lemma_remaining_push(self.names(), names_of(chain@), names_of(chain2@), name@);
                }
                let mut i: usize = 0;
                while i < candidates.len()
                    invariant
                        i <= candidates@.len(),
                        self.wf(),
                        self.remaining(chain2@) < self.remaining(chain@),
                        spec_parse_call(text@) is Some,
                        forall|j: int| 0 <= j < candidates@.len() ==> (#[trigger] candidates@[j]) < self.callees@.len(),
                        grows(*self.config, *old(flow), *flow),
                        self.adds_callee_reports(old(flow).findings@, flow.findings@),
                        flow.tainted == old(flow).tainted,
                        flow.touched == old(flow).touched,
                        spec_parse_call(text@) == Some((name@, strings_of(args@))),
                        self.names().contains(name@),
                    decreases candidates@.len() - i,
                {
                    let ghost before = flow.findings@;
                    let hit = self.callee_returns_tainted(flow, candidates[i], &args, &chain2);
                    proof {
                        assert forall|i: int| old(flow).findings@.len() <= i < flow.findings@.len() implies self.callee_report(
                            #[trigger] flow.findings@[i],
                        ) by {
                            if i < before.len() {
                                assert(flow.findings@[i] == before[i]);
                            }
                        }
                    }
                    if hit {
                        return true;
                    }
                    i = i + 1;
                }
                false
            },
        }
    }

    /// Analyzes the body of callee `index` with the caller's argument taint
    /// bound to its parameters; whether some `return` value is tainted.
    fn callee_returns_tainted(&self, flow: &mut Flow, index: usize, args: &Vec<String>, chain: &Vec<String>) -> (r: bool)
        requires
            old(flow).ok(*self.config),
            self.wf(),
            index < self.callees@.len(),
        ensures
            grows(*self.config, *old(flow), *final(flow)),
            self.adds_callee_reports(old(flow).findings@, final(flow).findings@),
            final(flow).tainted == old(flow).tainted,
            final(flow).touched == old(flow).touched,
            body_returns_source(
                self.language,
                *self.callees@[index as int].node,
                sbytes(self.callees@[index as int].source),
                *self.config,
            ) ==> r,
        decreases self.remaining(chain@), 4int, 0int,
    {
        let ghost start = *flow;
        let mut arg_tainted: Vec<bool> = Vec::new();
        let mut k: usize = 0;
        while k < args.len()
            invariant
                k <= args@.len(),
                self.wf(),
                grows(*self.config, *old(flow), *flow),
                self.adds_callee_reports(old(flow).findings@, flow.findings@),
                flow.tainted == old(flow).tainted,
                flow.touched == old(flow).touched,
            decreases args@.len() - k,
        {
            let ghost before = flow.findings@;
            let t = self.expr_is_tainted(flow, args[k].as_str(), chain);
            proof {
                self.lemma_reports_chain(old(flow).findings@, before, flow.findings@);
            }
            arg_tainted.push(t);
            k = k + 1;
        }
        let ghost mid = *flow;
        let mut saved_tainted = VarSet::new();
        let mut saved_touched = VarSet::new();
        std::mem::swap(&mut flow.tainted, &mut saved_tainted);
        std::mem::swap(&mut flow.touched, &mut saved_touched);
        let callee = &self.callees[index];
        assert(positions_fit(*callee.node));
        self.bind_params(flow, callee.node, callee.source, &arg_tainted);
        let mut result = false;
        let mut c: usize = 0;
        while c < callee.node.children.len() && !result
            invariant
                c <= callee.node.children@.len(),
                self.wf(),
                positions_fit(*callee.node),
                grows(*self.config, mid, *flow),
                index < self.callees@.len(),
                *callee == self.callees@[index as int],
                self.adds_callee_reports(old(flow).findings@, flow.findings@),
                old(flow).findings@.len() <= mid.findings@.len(),
                !result ==> forall|j: int|
                    0 <= j < c ==> !returns_source(
                        self.language,
                        #[trigger] callee.node.children@[j],
                        sbytes(callee.source),
                        *self.config,
                    ),
            decreases callee.node.children@.len() - c,
        {
            proof {
                lemma_children_fit(callee.node.children@, c as int);
            }
            let ghost before = flow.findings@;
            let hit = self.walk_for_returns(flow, &callee.node.children[c], callee.source, chain);
            proof {
                self.lemma_sites_of_child(*callee.node, c as int, sbytes(callee.source), before, flow.findings@);
                self.lemma_reports_of_callee(index as int, before, flow.findings@);
                self.lemma_reports_chain(old(flow).findings@, before, flow.findings@);
            }
            if hit {
                result = true;
            }
            c = c + 1;
        }
        std::mem::swap(&mut flow.tainted, &mut saved_tainted);
        std::mem::swap(&mut flow.touched, &mut saved_touched);
        result
    }

    /// Binds tainted caller arguments to the callee's parameters, in order,
    /// up to the first argument that is not tainted.
    fn bind_params(&self, flow: &mut Flow, method: &SyntaxNode, source: &str, arg_tainted: &Vec<bool>)
        requires
            old(flow).ok(*self.config),
        ensures
            final(flow).ok(*self.config),
            final(flow).findings == old(flow).findings,
            final(flow).touched == old(flow).touched,
            old(flow).tainted@.subset_of(final(flow).tainted@),
            final(flow).tainted@ == old(flow).tainted@.union(bound_names(*method, arg_tainted@, sbytes(source))),
    {
        let ghost start = *flow;
        let ghost src = sbytes(source);
        match field_child_exec(method, "parameters") {
            None => {
                assert(flow.tainted@ =~= start.tainted@.union(Set::<Seq<char>>::empty()));
            },
            Some(params) => {
                let mut index: usize = 0;
                let mut stop = false;
                let mut k: usize = 0;
                proof {
                    assert(params.children@.subrange(0, 0) =~= Seq::<SyntaxNode>::empty());
                    assert(flow.tainted@ =~= start.tainted@.union(Set::<Seq<char>>::empty()));
                }
                while k < params.children.len() && !stop
                    invariant
                        k <= params.children@.len(),
                        index <= k,
                        flow.ok(*self.config),
                        flow.findings == start.findings,
                        flow.touched == old(flow).touched,
                        start.tainted@.subset_of(flow.tainted@),
                        src == sbytes(source),
                        bound_state(params.children@.subrange(0, k as int), arg_tainted@, src).0 == index as int,
                        bound_state(params.children@.subrange(0, k as int), arg_tainted@, src).1 == stop,
                        flow.tainted@ == start.tainted@.union(
                            bound_state(params.children@.subrange(0, k as int), arg_tainted@, src).2,
                        ),
                    decreases params.children@.len() - k,
                {
                    proof {
                        let sub = params.children@.subrange(0, k + 1);
                        assert(sub.drop_last() =~= params.children@.subrange(0, k as int));
                        assert(sub.last() == params.children@[k as int]);
                    }
                    let ghost prev = bound_state(params.children@.subrange(0, k as int), arg_tainted@, src);
                    let child = &params.children[k];
                    if is_parameter(child.kind.as_str()) {
                        if index < arg_tainted.len() && arg_tainted[index] {
                            match field_child_exec(child, "name") {
                                Some(n) => match node_text_exec(n, source) {
                                    Some(t) => {
                                        flow.tainted.insert(t);
                                        assert(flow.tainted@ =~= start.tainted@.union(prev.2.insert(t@)));
                                    },
                                    None => {},
                                },
                                None => {},
                            }
                            index = index + 1;
                        } else {
                            stop = true;
                        }
                    }
                    k = k + 1;
                }
                proof {
                    if stop {
                        lemma_bound_state_stops(params.children@, k as int, arg_tainted@, src);
                    } else {
                        assert(params.children@.subrange(0, k as int) =~= params.children@);
                    }
                }
            },
        }
    }

    /// Walks a callee body for `return` statements whose value is tainted,
    /// following its declarations and assignments; nested functions are
    /// skipped.
    fn walk_for_returns(&self, flow: &mut Flow, node: &SyntaxNode, source: &str, chain: &Vec<String>) -> (r: bool)
        requires
            old(flow).ok(*self.config),
            self.wf(),
            positions_fit(*node),
        ensures
            grows(*self.config, *old(flow), *final(flow)),
            self.adds_sites(*node, sbytes(source), old(flow).findings@, final(flow).findings@),
            returns_source(self.language, *node, sbytes(source), *self.config) ==> r,
        decreases self.remaining(chain@), 3int, node_size(*node),
    {
        let ghost start = *flow;
        let ghost src = sbytes(source);
        if is_method_like(self.language, node.kind.as_str()) {
            return false;
        }
        if str_eq(node.kind.as_str(), "return_statement") {
            proof {
                lemma_return_value_index_bounds(node.children@, 0);
            }
            let mut found: Option<&SyntaxNode> = None;
            let mut k: usize = 0;
            while k < node.children.len() && found.is_none()
                invariant
                    k <= node.children@.len(),
                    found is None ==> return_value_index(node.children@, 0) == return_value_index(node.children@, k as int),
                    found matches Some(c) ==> 0 <= return_value_index(node.children@, 0) < node.children@.len()
                        && *c == node.children@[return_value_index(node.children@, 0)],
                    -1 <= return_value_index(node.children@, 0) < node.children@.len(),
                decreases node.children@.len() - k,
            {
                let c = &node.children[k];
                if !str_eq(c.kind.as_str(), "return") && !str_eq(c.kind.as_str(), ";") {
                    found = Some(c);
                }
                k = k + 1;
            }
            proof {
                if returns_source(self.language, *node, src, *self.config) {
                    let m = choose|m: SyntaxNode|
                        #[trigger] return_visits(self.language, *node, m) && m.kind@ == "return_statement"@ && (returned_text(
                            m,
                            src,
                        ) matches Some(t) && mentions(t, self.config.sources@));
                    assert(m == *node);
                }
            }
            let r = match found {
                Some(c) => match node_text_exec(c, source) {
                    Some(v) => self.expr_is_tainted(flow, v, chain),
                    None => false,
                },
                None => false,
            };
            proof {
                self.lemma_sites_of_reports(*node, src, old(flow).findings@, flow.findings@);
            }
            return r;
        }
        if is_declaration(self.language, node.kind.as_str()) {
            self.handle_local_declaration(flow, node, source, chain);
            proof {
                self.lemma_sites_of_reports(*node, src, old(flow).findings@, flow.findings@);
            }
        } else if is_assignment(self.language, node.kind.as_str()) {
            self.handle_assignment(flow, node, source, chain);
            proof {
                assert forall|i: int| old(flow).findings@.len() <= i < flow.findings@.len() implies site_in(
                    *node,
                    src,
                    *self.config,
                    #[trigger] flow.findings@[i],
                ) || self.callee_report(flow.findings@[i]) by {
                    assert(descends(*node, *node));
                }
            }
        }
        let ghost mid = *flow;
        let mut k: usize = 0;
        while k < node.children.len()
            invariant
                k <= node.children@.len(),
                self.wf(),
                positions_fit(*node),
                grows(*self.config, *old(flow), *flow),
                self.adds_sites(*node, src, old(flow).findings@, flow.findings@),
                src == sbytes(source),
                node.kind@ != "return_statement"@,
                !spec_method_like(self.language, node.kind@),
                forall|j: int| 0 <= j < k ==> !returns_source(self.language, #[trigger] node.children@[j], src, *self.config),
            decreases node.children@.len() - k,
        {
            proof {
                lemma_children_fit(node.children@, k as int);
                lemma_child_smaller(*node, k as int);
            }
            let ghost before = flow.findings@;
            let hit = self.walk_for_returns(flow, &node.children[k], source, chain);
            proof {
                self.lemma_sites_of_child(*node, k as int, src, before, flow.findings@);
                self.lemma_sites_chain(*node, src, old(flow).findings@, before, flow.findings@);
            }
            if hit {
                return true;
            }
            k = k + 1;
        }
        proof {
            if returns_source(self.language, *node, src, *self.config) {
                let m = choose|m: SyntaxNode|
                    #[trigger] return_visits(self.language, *node, m) && m.kind@ == "return_statement"@ && (returned_text(
                        m,
                        src,
                    ) matches Some(t) && mentions(t, self.config.sources@));
                if m != *node {
                    let j = choose|j: int| 0 <= j < node.children@.len() && return_visits(self.language, #[trigger] node.children@[j], m);
                    assert(returns_source(self.language, node.children@[j], src, *self.config));
                }
            }
        }
        false
    }

    /// A local declaration taints or clears the declared name by its
    /// initializer; without an initializer the name is clean.
    fn handle_local_declaration(&self, flow: &mut Flow, node: &SyntaxNode, source: &str, chain: &Vec<String>)
        requires
            old(flow).ok(*self.config),
            self.wf(),
        ensures
            grows(*self.config, *old(flow), *final(flow)),
            self.adds_callee_reports(old(flow).findings@, final(flow).findings@),
            declared_name(*node, sbytes(source)) matches Some(name) ==> (declared_value(*node, sbytes(source)) matches Some(v)
                ==> final(flow).tainted@.subset_of(may_assign(*self.config, self.names(), old(flow).tainted@, name, v))),
            match declared_name(*node, sbytes(source)) {
                None => final(flow).tainted == old(flow).tainted && final(flow).touched == old(flow).touched,
                Some(name) => final(flow).touched@ == old(flow).touched@.insert(name) && match declared_value(
                    *node,
                    sbytes(source),
                ) {
                    None => final(flow).tainted@ == old(flow).tainted@.remove(name),
                    Some(v) => assigned_taint(old(flow).tainted@, final(flow).tainted@, name, v, *self.config),
                },
            },
        decreases self.remaining(chain@), 2int, 0int,
    {
        let declarator: Option<&SyntaxNode> = if str_eq(node.kind.as_str(), "var_spec") {
            Some(node)
        } else {
            match field_child_exec(node, "declarator") {
                Some(d) => Some(d),
                None => kind_child_exec(node, "variable_declarator"),
            }
        };
        let d = match declarator {
            Some(d) => d,
            None => {
                return;
            },
        };
        let name = match field_child_exec(d, "name") {
            Some(n) => match node_text_exec(n, source) {
                Some(t) => t,
                None => {
                    return;
                },
            },
            None => {
                return;
            },
        };
        let value = match field_child_exec(d, "value") {
            Some(v) => node_text_exec(v, source),
            None => None,
        };
        flow.touched.insert(name);
        match value {
            Some(v) => {
                self.apply_assignment(flow, name, v, chain);
            },
            None => {
                flow.tainted.remove(name);
            },
        }
    }

    /// An assignment moves the right side's taint to the left side; an
    /// assignment that is itself a sink (`el.innerHTML = ...`) is reported
    /// when its right side is tainted.
    fn handle_assignment(&self, flow: &mut Flow, node: &SyntaxNode, source: &str, chain: &Vec<String>)
        requires
            old(flow).ok(*self.config),
            self.wf(),
            positions_fit(*node),
        ensures
            grows(*self.config, *old(flow), *final(flow)),
            assigned_sides(*node, sbytes(source)) matches Some((target, value)) ==> final(flow).tainted@.subset_of(
                may_assign(*self.config, self.names(), old(flow).tainted@, target, value),
            ),
            forall|i: int|
                old(flow).findings@.len() <= i < final(flow).findings@.len() ==> self.callee_report(#[trigger] final(flow).findings@[i])
                    || (final(flow).findings@[i].start_byte == node.start_byte && final(flow).findings@[i].end_byte == node.end_byte
                    && (node_text(*node, sbytes(source)) matches Some(t) && mentions(t, self.config.sinks@)) && (assigned_sides(
                    *node,
                    sbytes(source),
                ) matches Some((target, value)) && may_taint(*self.config, self.names(), value, final(flow).tainted@))),
            match assigned_sides(*node, sbytes(source)) {
                None => final(flow).tainted == old(flow).tainted && final(flow).touched == old(flow).touched
                    && final(flow).findings == old(flow).findings,
                Some((target, value)) => {
                    &&& final(flow).touched@ == old(flow).touched@.insert(target)
                    &&& assigned_taint(old(flow).tainted@, final(flow).tainted@, target, value, *self.config)
                    &&& (node_text(*node, sbytes(source)) matches Some(t) && mentions(t, self.config.sinks@) && mentions(
                        value,
                        self.config.sources@,
                    )) ==> found_at(final(flow).findings@, *node)
                },
            },
        decreases self.remaining(chain@), 2int, 0int,
    {
        let left = match field_child_exec(node, "left") {
            Some(l) => match node_text_exec(l, source) {
                Some(t) => t,
                None => {
                    return;
                },
            },
            None => {
                return;
            },
        };
        let right = match field_child_exec(node, "right") {
            Some(r) => match node_text_exec(r, source) {
                Some(t) => t,
                None => {
                    return;
                },
            },
            None => {
                return;
            },
        };
        self.apply_assignment(flow, left, right, chain);
        let ghost after_assign = *flow;
        proof {
            assert(assigned_sides(*node, sbytes(source)) == Some((left@, right@)));
        }
        match node_text_exec(node, source) {
            Some(text) => {
                if self.is_sink(text) {
                    let ghost before = flow.findings@;
                    let hit = self.expr_is_tainted(flow, right, chain);
                    proof {
                        self.lemma_reports_chain(old(flow).findings@, before, flow.findings@);
                    }
                    if hit {
                        let ghost pre = flow.findings@;
                        self.emit_finding(flow, node, text.to_string());
                        proof {
                            let last = flow.findings@.len() - 1;
                            assert(flow.findings@[last].start_byte == node.start_byte);
                            assert forall|i: int|
                                old(flow).findings@.len() <= i < flow.findings@.len() implies self.callee_report(
                                    #[trigger] flow.findings@[i],
                                ) || (flow.findings@[i].start_byte == node.start_byte && flow.findings@[i].end_byte
                                    == node.end_byte && (node_text(*node, sbytes(source)) matches Some(t) && mentions(
                                    t,
                                    self.config.sinks@,
                                )) && (assigned_sides(*node, sbytes(source)) matches Some((target, value)) && may_taint(
                                    *self.config,
                                    self.names(),
                                    value,
                                    flow.tainted@,
                                ))) by {
                                if i < pre.len() {
                                    assert(flow.findings@[i] == pre[i]);
                                }
                            }
                        }
                    }
                }
            },
            None => {},
        }
    }
}

impl<'a> Engine<'a> {
    /// Walks a callee body for a sink call whose text is tainted; a tainted
    /// call that is not itself a sink is followed one more hop into its own
    /// callee. Returns the sink text found.
    fn walk_for_sinks(&self, flow: &mut Flow, node: &SyntaxNode, source: &str, chain: &Vec<String>) -> (r: Option<String>)
        requires
            old(flow).ok(*self.config),
            self.wf(),
            positions_fit(*node),
        ensures
            grows(*self.config, *old(flow), *final(flow)),
            self.adds_sites(*node, sbytes(source), old(flow).findings@, final(flow).findings@),
            r matches Some(sink) ==> mentions(sink@, self.config.sinks@),
            has_exposed(self.language, *node, sbytes(source), *self.config) ==> r is Some,
        decreases self.remaining(chain@), 1int, node_size(*node),
    {
        let ghost src = sbytes(source);
        if is_method_like(self.language, node.kind.as_str()) {
            return None;
        }
        if is_declaration(self.language, node.kind.as_str()) {
            self.handle_local_declaration(flow, node, source, chain);
            proof {
                self.lemma_sites_of_reports(*node, src, old(flow).findings@, flow.findings@);
            }
        } else if is_assignment(self.language, node.kind.as_str()) {
            self.handle_assignment(flow, node, source, chain);
            proof {
                assert forall|i: int| old(flow).findings@.len() <= i < flow.findings@.len() implies site_in(
                    *node,
                    src,
                    *self.config,
                    #[trigger] flow.findings@[i],
                ) || self.callee_report(flow.findings@[i]) by {
                    assert(descends(*node, *node));
                }
            }
        }
        if is_call(self.language, node.kind.as_str()) {
            match node_text_exec(node, source) {
                Some(text) => {
                    let ghost b1 = flow.findings@;
                    if self.is_sink(text) {
                        let hit = self.expr_is_tainted(flow, text, chain);
                        proof {
                            self.lemma_sites_of_reports(*node, src, b1, flow.findings@);
                            self.lemma_sites_chain(*node, src, old(flow).findings@, b1, flow.findings@);
                        }
                        if hit {
                            return Some(text.to_string());
                        }
                    } else {
                        let hit = self.expr_is_tainted(flow, text, chain);
                        proof {
                            self.lemma_sites_of_reports(*node, src, b1, flow.findings@);
                            self.lemma_sites_chain(*node, src, old(flow).findings@, b1, flow.findings@);
                        }
                        if hit {
                            match parse_call(text) {
                                Some((name, args)) => {
                                    let ghost b2 = flow.findings@;
                                    let reached = self.callee_reaches_sink(flow, name.as_str(), &args, chain);
                                    proof {
                                        self.lemma_sites_of_reports(*node, src, b2, flow.findings@);
                                        self.lemma_sites_chain(*node, src, old(flow).findings@, b2, flow.findings@);
                                    }
                                    match reached {
                                        Some(sink) => {
                                            return Some(sink);
                                        },
                                        None => {},
                                    }
                                },
                                None => {},
                            }
                        }
                    }
                },
                None => {},
            }
        }
        assert(!exposed_sink(self.language, *node, src, *self.config));
        let mut k: usize = 0;
        while k < node.children.len()
            invariant
                k <= node.children@.len(),
                self.wf(),
                positions_fit(*node),
                grows(*self.config, *old(flow), *flow),
                self.adds_sites(*node, src, old(flow).findings@, flow.findings@),
                src == sbytes(source),
                !exposed_sink(self.language, *node, src, *self.config),
                !spec_method_like(self.language, node.kind@),
                forall|j: int| 0 <= j < k ==> !has_exposed(self.language, #[trigger] node.children@[j], src, *self.config),
            decreases node.children@.len() - k,
        {
            proof {
                lemma_children_fit(node.children@, k as int);
                lemma_child_smaller(*node, k as int);
            }
            let ghost before = flow.findings@;
            let found_below = self.walk_for_sinks(flow, &node.children[k], source, chain);
            proof {
                self.lemma_sites_of_child(*node, k as int, src, before, flow.findings@);
                self.lemma_sites_chain(*node, src, old(flow).findings@, before, flow.findings@);
            }
            match found_below {
                Some(found) => {
                    return Some(found);
                },
                None => {},
            }
            k = k + 1;
        }
        proof {
            if has_exposed(self.language, *node, src, *self.config) {
                let m = choose|m: SyntaxNode| #[trigger] body_visits(self.language, *node, m) && exposed_sink(self.language, m, src, *self.config);
                if m != *node {
                    let j = choose|j: int| 0 <= j < node.children@.len() && body_visits(self.language, #[trigger] node.children@[j], m);
                    assert(has_exposed(self.language, node.children@[j], src, *self.config));
                }
            }
        }
        None
    }

    /// Whether some definition of `name` reaches a sink in its body when the
    /// caller's argument taint is bound to its parameters.
    fn callee_reaches_sink(&self, flow: &mut Flow, name: &str, args: &Vec<String>, chain: &Vec<String>) -> (r: Option<String>)
        requires
            old(flow).ok(*self.config),
            self.wf(),
        ensures
            grows(*self.config, *old(flow), *final(flow)),
            self.adds_callee_reports(old(flow).findings@, final(flow).findings@),
            final(flow).tainted == old(flow).tainted,
            final(flow).touched == old(flow).touched,
            r matches Some(sink) ==> mentions(sink@, self.config.sinks@),
            !names_of(chain@).contains(name@) && (exists|i: int|
                first_named(self.callees@, name@, i) && body_exposes(
                    self.language,
                    *(#[trigger] self.callees@[i]).node,
                    sbytes(self.callees@[i].source),
                    *self.config,
                )) ==> r is Some,
        decreases self.remaining(chain@), 0int, 0int,
    {
        if chain_contains(chain, name) {
            return None;
        }
        let candidates = self.resolve_callees(name);
        let ghost first_exposes = exists|i: int|
            first_named(self.callees@, name@, i) && body_exposes(
                self.language,
                *(#[trigger] self.callees@[i]).node,
                sbytes(self.callees@[i].source),
                *self.config,
            );
        proof {
            if first_exposes {
                let i = choose|i: int|
                    first_named(self.callees@, name@, i) && body_exposes(
                        self.language,
                        *(#[trigger] self.callees@[i]).node,
                        sbytes(self.callees@[i].source),
                        *self.config,
                    );
                assert(candidates@.len() > 0 && candidates@[0] == i);
            }
        }
        if candidates.len() == 0 {
            return None;
        }
        let chain2 = extended(chain, name);
        proof {
            vstd::seq_lib::seq_to_set_is_finite(self.callees@.map_values(|c: Callee<'a>| c.name@));
            lemma_remaining_push(self.names(), names_of(chain@), names_of(chain2@), name@);
        }
        let mut i: usize = 0;
        while i < candidates.len()
            invariant
                i <= candidates@.len(),
                self.wf(),
                self.remaining(chain2@) < self.remaining(chain@),
                forall|j: int| 0 <= j < candidates@.len() ==> (#[trigger] candidates@[j]) < self.callees@.len(),
                grows(*self.config, *old(flow), *flow),
                self.adds_callee_reports(old(flow).findings@, flow.findings@),
                flow.tainted == old(flow).tainted,
                flow.touched == old(flow).touched,
                first_exposes ==> i == 0 && candidates@.len() > 0 && body_exposes(
                    self.language,
                    *self.callees@[candidates@[0] as int].node,
                    sbytes(self.callees@[candidates@[0] as int].source),
                    *self.config,
                ),
            decreases candidates@.len() - i,
        {
            let ghost before = flow.findings@;
            let found = self.callee_has_sink(flow, candidates[i], args, &chain2);
            proof {
                self.lemma_reports_chain(old(flow).findings@, before, flow.findings@);
            }
            match found {
                Some(sink) => {
                    return Some(sink);
                },
                None => {},
            }
            i = i + 1;
        }
        None
    }

    /// Walks the body of callee `index`, with the caller's argument taint
    /// bound, for a tainted sink.
    fn callee_has_sink(&self, flow: &mut Flow, index: usize, args: &Vec<String>, chain: &Vec<String>) -> (r: Option<String>)
        requires
            old(flow).ok(*self.config),
            self.wf(),
            index < self.callees@.len(),
        ensures
            grows(*self.config, *old(flow), *final(flow)),
            self.adds_callee_reports(old(flow).findings@, final(flow).findings@),
            final(flow).tainted == old(flow).tainted,
            final(flow).touched == old(flow).touched,
            r matches Some(sink) ==> mentions(sink@, self.config.sinks@),
            body_exposes(
                self.language,
                *self.callees@[index as int].node,
                sbytes(self.callees@[index as int].source),
                *self.config,
            ) ==> r is Some,
        decreases self.remaining(chain@), 2int, 0int,
    {
        let mut arg_tainted: Vec<bool> = Vec::new();
        let mut k: usize = 0;
        while k < args.len()
            invariant
                k <= args@.len(),
                self.wf(),
                grows(*self.config, *old(flow), *flow),
                self.adds_callee_reports(old(flow).findings@, flow.findings@),
                flow.tainted == old(flow).tainted,
                flow.touched == old(flow).touched,
            decreases args@.len() - k,
        {
            let ghost before = flow.findings@;
            let t = self.expr_is_tainted(flow, args[k].as_str(), chain);
            proof {
                self.lemma_reports_chain(old(flow).findings@, before, flow.findings@);
            }
            arg_tainted.push(t);
            k = k + 1;
        }
        let ghost mid = *flow;
        let mut saved_tainted = VarSet::new();
        let mut saved_touched = VarSet::new();
        std::mem::swap(&mut flow.tainted, &mut saved_tainted);
        std::mem::swap(&mut flow.touched, &mut saved_touched);
        let callee = &self.callees[index];
        assert(positions_fit(*callee.node));
        self.bind_params(flow, callee.node, callee.source, &arg_tainted);
        let mut sink: Option<String> = None;
        let mut c: usize = 0;
        while c < callee.node.children.len() && sink.is_none()
            invariant
                c <= callee.node.children@.len(),
                self.wf(),
                positions_fit(*callee.node),
                grows(*self.config, mid, *flow),
                index < self.callees@.len(),
                *callee == self.callees@[index as int],
                self.adds_callee_reports(old(flow).findings@, flow.findings@),
                old(flow).findings@.len() <= mid.findings@.len(),
                sink matches Some(s) ==> mentions(s@, self.config.sinks@),
                sink is None ==> forall|j: int|
                    0 <= j < c ==> !has_exposed(
                        self.language,
                        #[trigger] callee.node.children@[j],
                        sbytes(callee.source),
                        *self.config,
                    ),
            decreases callee.node.children@.len() - c,
        {
            proof {
                lemma_children_fit(callee.node.children@, c as int);
            }
            let ghost before = flow.findings@;
            sink = self.walk_for_sinks(flow, &callee.node.children[c], callee.source, chain);
            proof {
                self.lemma_sites_of_child(*callee.node, c as int, sbytes(callee.source), before, flow.findings@);
                self.lemma_reports_of_callee(index as int, before, flow.findings@);
                self.lemma_reports_chain(old(flow).findings@, before, flow.findings@);
            }
            c = c + 1;
        }
        std::mem::swap(&mut flow.tainted, &mut saved_tainted);
        std::mem::swap(&mut flow.touched, &mut saved_touched);
        sink
    }

    /// A call node: reported when it is a sink whose text carries taint, or
    /// when it is a tainted call whose callee reaches a sink in its body.
    fn handle_sink_expression(&self, flow: &mut Flow, node: &SyntaxNode)
        requires
            old(flow).ok(*self.config),
            self.wf(),
            positions_fit(*node),
        ensures
            grows(*self.config, *old(flow), *final(flow)),
            forall|i: int|
                old(flow).findings@.len() <= i < final(flow).findings@.len() ==> self.callee_report(#[trigger] final(flow).findings@[i])
                    || (final(flow).findings@[i].start_byte == node.start_byte && final(flow).findings@[i].end_byte == node.end_byte
                    && (node_text(*node, sbytes(self.source)) matches Some(t) && may_taint(*self.config, self.names(), t, old(flow).tainted@))),
            exposed_sink(self.language, *node, sbytes(self.source), *self.config) ==> found_at(
                final(flow).findings@,
                *node,
            ),
            final(flow).tainted == old(flow).tainted,
            final(flow).touched == old(flow).touched,
            sink_call_tainted_by(self.language, *self.config, *node, sbytes(self.source), old(flow).tainted@) ==> found_at(
                final(flow).findings@,
                *node,
            ),
    {
        proof {
            if sink_call_tainted_by(self.language, *self.config, *node, sbytes(self.source), flow.tainted@) {
                let t = node_text(*node, sbytes(self.source))->0;
                lemma_taints_text_names(t, names_of(flow.tainted.items@));
            }
        }
        let text = match node_text_exec(node, self.source) {
            Some(t) => t,
            None => {
                return;
            },
        };
        let empty: Vec<String> = Vec::new();
        let ghost t0 = flow.tainted@;
        let ghost f0 = flow.findings@;
        if self.is_sink(text) {
            let hit = self.expr_is_tainted(flow, text, &empty);
            if hit {
                let ghost pre = flow.findings@;
                self.emit_finding(flow, node, text.to_string());
                proof {
                    let last = flow.findings@.len() - 1;
                    assert(flow.findings@[last].start_byte == node.start_byte);
                    assert forall|i: int| f0.len() <= i < flow.findings@.len() implies self.callee_report(
                        #[trigger] flow.findings@[i],
                    ) || (flow.findings@[i].start_byte == node.start_byte && flow.findings@[i].end_byte == node.end_byte
                        && (node_text(*node, sbytes(self.source)) matches Some(t) && may_taint(*self.config, self.names(), t, t0))) by {
                        if i < pre.len() {
                            assert(flow.findings@[i] == pre[i]);
                        }
                    }
                }
            }
            return;
        }
        let hit = self.expr_is_tainted(flow, text, &empty);
        if hit {
            match parse_call(text) {
                Some((name, args)) => {
                    let ghost b2 = flow.findings@;
                    let reached = self.callee_reaches_sink(flow, name.as_str(), &args, &empty);
                    proof {
                        self.lemma_reports_chain(f0, b2, flow.findings@);
                    }
                    match reached {
                        Some(sink) => {
                            let mut message = String::new();
                            push_str(&mut message, name.as_str());
                            push_str(&mut message, "(...) reaches sink ");
                            push_str(&mut message, sink.as_str());
                            proof {
                                lemma_mentions_in_context(
                                    name@ + "(...) reaches sink "@,
                                    sink@,
                                    Seq::empty(),
                                    self.config.sinks@,
                                );
                                assert(message@ =~= name@ + "(...) reaches sink "@ + sink@ + Seq::<char>::empty());
                            }
                            let ghost pre = flow.findings@;
                            self.emit_finding(flow, node, message);
                            proof {
                                assert forall|i: int| f0.len() <= i < flow.findings@.len() implies self.callee_report(
                                    #[trigger] flow.findings@[i],
                                ) || (flow.findings@[i].start_byte == node.start_byte && flow.findings@[i].end_byte
                                    == node.end_byte && (node_text(*node, sbytes(self.source)) matches Some(t) && may_taint(
                                    *self.config,
                                    self.names(),
                                    t,
                                    t0,
                                ))) by {
                                    if i < pre.len() {
                                        assert(flow.findings@[i] == pre[i]);
                                    }
                                }
                            }
                        },
                        None => {},
                    }
                },
                None => {},
            }
        }
    }
}

/// Whether a branch leaves `v` tainted: its own state when it reassigned
/// `v`, the entry state otherwise.
pub open spec fn effective(v: Seq<char>, state: Set<Seq<char>>, touched: Set<Seq<char>>, entry: Set<Seq<char>>) -> bool {
    if touched.contains(v) {
        state.contains(v)
    } else {
        entry.contains(v)
    }
}

/// The state after a two-way branch: tainted when either branch leaves it
/// tainted.
pub open spec fn joined(
    entry: Set<Seq<char>>,
    then_state: Set<Seq<char>>,
    then_touched: Set<Seq<char>>,
    else_state: Set<Seq<char>>,
    else_touched: Set<Seq<char>>,
) -> Set<Seq<char>> {
    Set::new(
        |v: Seq<char>|
            effective(v, then_state, then_touched, entry) || effective(v, else_state, else_touched, entry),
    )
}

/// Whether an expression text may carry taint when at most the variables
/// `s` are tainted: it contains a source, mentions one of `s`, or is a call
/// one of whose arguments may carry taint or whose name is one of the
/// functions the walk may enter (`calls`), whose return may be tainted.
pub open spec fn may_taint(config: TaintConfig, calls: Set<Seq<char>>, text: Seq<char>, s: Set<Seq<char>>) -> bool
    decreases 2 * text.len() + 1, 0int,
{
    mentions(text, config.sources@) || taints_text(text, s) || match spec_parse_call(text) {
        Some((name, args)) => calls.contains(name) || may_taint_args(config, calls, text, args, 0, s),
        None => false,
    }
}

/// One of the arguments `args` of the call `text`, from `k` on, may carry
/// taint.
pub open spec fn may_taint_args(
    config: TaintConfig,
    calls: Set<Seq<char>>,
    text: Seq<char>,
    args: Seq<Seq<char>>,
    k: int,
    s: Set<Seq<char>>,
) -> bool
    decreases 2 * text.len(), args.len() - k,
{
    if k < 0 || k >= args.len() {
        false
    } else {
        (args[k].len() < text.len() && may_taint(config, calls, args[k], s)) || may_taint_args(
            config,
            calls,
            text,
            args,
            k + 1,
            s,
        )
    }
}

/// What assigning `value` to `target` may leave tainted: the target when
/// the value calls no sanitizer and may carry taint, otherwise not.
pub open spec fn may_assign(
    config: TaintConfig,
    calls: Set<Seq<char>>,
    s: Set<Seq<char>>,
    target: Seq<char>,
    value: Seq<char>,
) -> Set<Seq<char>> {
    if !mentions(value, config.sanitizers@) && may_taint(config, calls, value, s) {
        s.insert(target)
    } else {
        s.remove(target)
    }
}

/// The walk's state after the statement `n` itself (a declaration or an
/// assignment): the variables that may be tainted, and those assigned since
/// the current branch began.
pub open spec fn may_step(
    language: Language,
    config: TaintConfig,
    calls: Set<Seq<char>>,
    n: SyntaxNode,
    src: Seq<u8>,
    st: (Set<Seq<char>>, Set<Seq<char>>),
) -> (Set<Seq<char>>, Set<Seq<char>>) {
    if spec_declaration(language, n.kind@) {
        match declared_name(n, src) {
            None => st,
            Some(name) => (
                match declared_value(n, src) {
                    None => st.0.remove(name),
                    Some(v) => may_assign(config, calls, st.0, name, v),
                },
                st.1.insert(name),
            ),
        }
    } else if spec_assignment(language, n.kind@) {
        match assigned_sides(n, src) {
            None => st,
            Some((t, v)) => (may_assign(config, calls, st.0, t, v), st.1.insert(t)),
        }
    } else {
        st
    }
}

/// The walk's state after walking `n` from `st`, with each assignment as
/// `may_assign` says: a function's body leaves the tainted variables as they
/// were; after an `if` a variable is tainted when a branch that reassigned
/// it leaves it tainted, or a branch that did not found it tainted; a loop
/// body is walked once and what was tainted before stays tainted; other
/// nodes take their own step, then their children's in order.
pub open spec fn may_walk(
    language: Language,
    config: TaintConfig,
    calls: Set<Seq<char>>,
    n: SyntaxNode,
    src: Seq<u8>,
    st: (Set<Seq<char>>, Set<Seq<char>>),
) -> (Set<Seq<char>>, Set<Seq<char>>)
    decreases node_size(n), 1int,
{
    if spec_method_like(language, n.kind@) {
        (st.0, may_children(language, config, calls, n.children@, src, st).1)
    } else if n.kind@ == "if_statement"@ {
        let th = may_branch(language, config, calls, n, "consequence"@, src, st.0);
        let el = may_branch(language, config, calls, n, "alternative"@, src, st.0);
        (joined(st.0, th.0, th.1, el.0, el.1), Set::empty())
    } else if spec_loop(language, n.kind@) {
        let after = may_children(language, config, calls, n.children@, src, st);
        (st.0.union(after.0), after.1)
    } else {
        may_children(language, config, calls, n.children@, src, may_step(language, config, calls, n, src, st))
    }
}

/// The state a branch of an `if` leaves: its child under `field` walked
/// from `entry` with nothing assigned yet (no child: `entry` unchanged).
pub open spec fn may_branch(
    language: Language,
    config: TaintConfig,
    calls: Set<Seq<char>>,
    n: SyntaxNode,
    field: Seq<char>,
    src: Seq<u8>,
    entry: Set<Seq<char>>,
) -> (Set<Seq<char>>, Set<Seq<char>>)
    decreases node_size(n), 0int,
{
    let c = field_index(n.children@, field, 0);
    if 0 <= c < n.children@.len() {
        proof {
            lemma_child_smaller(n, c);
        }
        may_walk(language, config, calls, n.children@[c], src, (entry, Set::empty()))
    } else {
        (entry, Set::empty())
    }
}

/// The state after walking the nodes `cs` in order from `st`.
pub open spec fn may_children(
    language: Language,
    config: TaintConfig,
    calls: Set<Seq<char>>,
    cs: Seq<SyntaxNode>,
    src: Seq<u8>,
    st: (Set<Seq<char>>, Set<Seq<char>>),
) -> (Set<Seq<char>>, Set<Seq<char>>)
    decreases children_size(cs), 2int,
{
    if cs.len() == 0 {
        st
    } else {
        may_walk(language, config, calls, cs.last(), src, may_children(language, config, calls, cs.drop_last(), src, st))
    }
}

/// `m` is `n` or lies below it.
pub open spec fn descends(n: SyntaxNode, m: SyntaxNode) -> bool
    decreases n,
{
    n == m || exists|k: int| 0 <= k < n.children@.len() && descends(#[trigger] n.children@[k], m)
}

/// `f` is at a node of `n` whose text names a sink.
pub open spec fn site_in(n: SyntaxNode, src: Seq<u8>, config: TaintConfig, f: TaintFinding) -> bool {
    exists|m: SyntaxNode|
        #[trigger] descends(n, m) && f.start_byte == m.start_byte && f.end_byte == m.end_byte && (node_text(m, src) matches Some(
            t,
        ) && mentions(t, config.sinks@))
}

proof fn lemma_site_in_child(n: SyntaxNode, k: int, src: Seq<u8>, config: TaintConfig, f: TaintFinding)
    requires
        0 <= k < n.children@.len(),
        site_in(n.children@[k], src, config, f),
    ensures
        site_in(n, src, config, f),
{
    let m = choose|m: SyntaxNode|
        #[trigger] descends(n.children@[k], m) && f.start_byte == m.start_byte && f.end_byte == m.end_byte && (node_text(m, src) matches Some(
            t,
        ) && mentions(t, config.sinks@));
    assert(descends(n, m));
}

/// The walk may report `f` at `n` itself from state `st`: `n` is a call
/// whose text may carry taint, or an assignment whose text names a sink
/// and whose value may carry taint once assigned.
pub open spec fn may_report_at(
    language: Language,
    config: TaintConfig,
    calls: Set<Seq<char>>,
    n: SyntaxNode,
    src: Seq<u8>,
    st: (Set<Seq<char>>, Set<Seq<char>>),
    f: TaintFinding,
) -> bool {
    &&& f.start_byte == n.start_byte && f.end_byte == n.end_byte
    &&& !spec_declaration(language, n.kind@)
    &&& node_text(n, src) matches Some(t) && if spec_assignment(language, n.kind@) {
        mentions(t, config.sinks@) && (assigned_sides(n, src) matches Some((target, v)) && may_taint(
            config,
            calls,
            v,
            may_step(language, config, calls, n, src, st).0,
        ))
    } else {
        spec_call(language, n.kind@) && may_taint(config, calls, t, st.0)
    }
}

/// The walk of `n` from `st` may report `f`: at a node it meets, from the
/// state `may_walk` gives there.
pub open spec fn may_reports(
    language: Language,
    config: TaintConfig,
    calls: Set<Seq<char>>,
    n: SyntaxNode,
    src: Seq<u8>,
    st: (Set<Seq<char>>, Set<Seq<char>>),
    f: TaintFinding,
) -> bool
    decreases node_size(n), 1int,
{
    if spec_method_like(language, n.kind@) {
        children_reports(language, config, calls, n.children@, src, st, f)
    } else if n.kind@ == "if_statement"@ {
        branch_reports(language, config, calls, n, "consequence"@, src, st.0, f) || branch_reports(
            language,
            config,
            calls,
            n,
            "alternative"@,
            src,
            st.0,
            f,
        )
    } else if spec_loop(language, n.kind@) {
        children_reports(language, config, calls, n.children@, src, st, f)
    } else {
        may_report_at(language, config, calls, n, src, st, f) || children_reports(
            language,
            config,
            calls,
            n.children@,
            src,
            may_step(language, config, calls, n, src, st),
            f,
        )
    }
}

/// The walk of an `if` branch from `entry` may report `f`.
pub open spec fn branch_reports(
    language: Language,
    config: TaintConfig,
    calls: Set<Seq<char>>,
    n: SyntaxNode,
    field: Seq<char>,
    src: Seq<u8>,
    entry: Set<Seq<char>>,
    f: TaintFinding,
) -> bool
    decreases node_size(n), 0int,
{
    let c = field_index(n.children@, field, 0);
    if 0 <= c < n.children@.len() {
        proof {
            lemma_child_smaller(n, c);
        }
        may_reports(language, config, calls, n.children@[c], src, (entry, Set::empty()), f)
    } else {
        false
    }
}

/// The walk of the nodes `cs` in order from `st` may report `f`.
pub open spec fn children_reports(
    language: Language,
    config: TaintConfig,
    calls: Set<Seq<char>>,
    cs: Seq<SyntaxNode>,
    src: Seq<u8>,
    st: (Set<Seq<char>>, Set<Seq<char>>),
    f: TaintFinding,
) -> bool
    decreases children_size(cs), 2int,
{
    cs.len() > 0 && (children_reports(language, config, calls, cs.drop_last(), src, st, f) || may_reports(
        language,
        config,
        calls,
        cs.last(),
        src,
        may_children(language, config, calls, cs.drop_last(), src, st),
        f,
    ))
}

proof fn lemma_may_taint_args_from(config: TaintConfig, calls: Set<Seq<char>>, text: Seq<char>, args: Seq<Seq<char>>, j: int, k: int, s: Set<Seq<char>>)
    requires
        0 <= j <= k < args.len(),
        args[k].len() < text.len(),
        may_taint(config, calls, args[k], s),
    ensures
        may_taint_args(config, calls, text, args, j, s),
    decreases k - j,
{
    if j < k {
        lemma_may_taint_args_from(config, calls, text, args, j + 1, k, s);
    }
}

proof fn lemma_may_taint_arg(config: TaintConfig, calls: Set<Seq<char>>, text: Seq<char>, s: Set<Seq<char>>, name: Seq<char>, args: Seq<Seq<char>>, k: int)
    requires
        spec_parse_call(text) == Some((name, args)),
        0 <= k < args.len(),
        args[k].len() < text.len(),
        may_taint(config, calls, args[k], s),
    ensures
        may_taint(config, calls, text, s),
{
    lemma_may_taint_args_from(config, calls, text, args, 0, k, s);
}

proof fn lemma_may_taint_args_mono(config: TaintConfig, calls: Set<Seq<char>>, text: Seq<char>, args: Seq<Seq<char>>, k: int, a: Set<Seq<char>>, b: Set<Seq<char>>)
    requires
        may_taint_args(config, calls, text, args, k, a),
        a.subset_of(b),
    ensures
        may_taint_args(config, calls, text, args, k, b),
    decreases 2 * text.len(), args.len() - k,
{
    if 0 <= k < args.len() {
        if args[k].len() < text.len() && may_taint(config, calls, args[k], a) {
            lemma_may_taint_mono(config, calls, args[k], a, b);
        } else {
            lemma_may_taint_args_mono(config, calls, text, args, k + 1, a, b);
        }
    }
}

proof fn lemma_may_taint_mono(config: TaintConfig, calls: Set<Seq<char>>, text: Seq<char>, a: Set<Seq<char>>, b: Set<Seq<char>>)
    requires
        may_taint(config, calls, text, a),
        a.subset_of(b),
    ensures
        may_taint(config, calls, text, b),
    decreases 2 * text.len() + 1, 0int,
{
    if taints_text(text, a) {
        lemma_taints_text_mono(text, a, b);
    } else if !mentions(text, config.sources@) {
        match spec_parse_call(text) {
            Some((name, args)) => {
                if !calls.contains(name) {
                    lemma_may_taint_args_mono(config, calls, text, args, 0, a, b);
                }
            },
            None => {},
        }
    }
}

proof fn lemma_may_assign_mono(config: TaintConfig, calls: Set<Seq<char>>, a: Set<Seq<char>>, b: Set<Seq<char>>, t: Seq<char>, v: Seq<char>)
    requires
        a.subset_of(b),
    ensures
        may_assign(config, calls, a, t, v).subset_of(may_assign(config, calls, b, t, v)),
{
    if !mentions(v, config.sanitizers@) && may_taint(config, calls, v, a) {
        lemma_may_taint_mono(config, calls, v, a, b);
    }
}

proof fn lemma_tainted_text_set(text: Seq<char>, names: Seq<Seq<char>>)
    requires
        spec_is_tainted_text(text, names),
    ensures
        taints_text(text, names.to_set()),
{
    let k = choose|k: int| 0 <= k < names.len() && spec_contains_identifier(spec_strip_string_literals(text), #[trigger] names[k]);
    assert(names.to_set().contains(names[k]));
}

proof fn lemma_joined_mono(
    e: Set<Seq<char>>,
    a: Set<Seq<char>>,
    b: Set<Seq<char>>,
    e2: Set<Seq<char>>,
    a2: Set<Seq<char>>,
    b2: Set<Seq<char>>,
    ta: Set<Seq<char>>,
    tb: Set<Seq<char>>,
)
    requires
        e.subset_of(e2),
        a.subset_of(a2),
        b.subset_of(b2),
    ensures
        joined(e, a, ta, b, tb).subset_of(joined(e2, a2, ta, b2, tb)),
{
}

fn add_effective(
    out: &mut VarSet,
    from: &VarSet,
    entry: &VarSet,
    then_state: &VarSet,
    then_touched: &VarSet,
    else_state: &VarSet,
    else_touched: &VarSet,
)
    requires
        old(out).wf(),
    ensures
        final(out).wf(),
        final(out)@ == old(out)@.union(
            from@.filter(
                |v: Seq<char>|
                    effective(v, then_state@, then_touched@, entry@) || effective(
                        v,
                        else_state@,
                        else_touched@,
                        entry@,
                    ),
            ),
        ),
{
    let ghost start = out@;
    let ghost names = names_of(from.items@);
    let ghost keep = |v: Seq<char>|
        effective(v, then_state@, then_touched@, entry@) || effective(v, else_state@, else_touched@, entry@);
    let mut k: usize = 0;
    while k < from.items.len()
        invariant
            k <= names.len(),
            names == names_of(from.items@),
            out.wf(),
            out@ == start.union(names.subrange(0, k as int).to_set().filter(keep)),
            forall|v: Seq<char>| #[trigger] keep(v) == (effective(v, then_state@, then_touched@, entry@) || effective(
                v,
                else_state@,
                else_touched@,
                entry@,
            )),
        decreases names.len() - k,
    {
        let v = from.items[k].as_str();
        let t = if then_touched.contains(v) {
            then_state.contains(v)
        } else {
            entry.contains(v)
        };
        let e = if else_touched.contains(v) {
            else_state.contains(v)
        } else {
            entry.contains(v)
        };
        if t || e {
            out.insert(v);
        }
        proof {
            assert(names[k as int] == v@);
            assert(t == effective(v@, then_state@, then_touched@, entry@));
            assert(e == effective(v@, else_state@, else_touched@, entry@));
            assert((t || e) == keep(v@));
            assert(names.subrange(0, k + 1).to_set() =~= names.subrange(0, k as int).to_set().insert(v@)) by {
                assert forall|x| names.subrange(0, k + 1).to_set().contains(x) implies names.subrange(
                    0,
                    k as int,
                ).to_set().insert(v@).contains(x) by {
                    let j = names.subrange(0, k + 1).index_of(x);
                    if j < k {
                        assert(names.subrange(0, k as int)[j] == x);
                    }
                }
                assert forall|x| names.subrange(0, k as int).to_set().insert(v@).contains(x) implies names.subrange(
                    0,
                    k + 1,
                ).to_set().contains(x) by {
                    if x == v@ {
                        assert(names.subrange(0, k + 1)[k as int] == x);
                    } else {
                        let j = names.subrange(0, k as int).index_of(x);
                        assert(names.subrange(0, k + 1)[j] == x);
                    }
                }
            }
            assert(out@ =~= start.union(names.subrange(0, k + 1).to_set().filter(keep)));
        }
        k = k + 1;
    }
    assert(names.subrange(0, names.len() as int) =~= names);
    assert(out@ =~= start.union(from@.filter(keep)));
}

/// The branch join: a variable is tainted afterwards when either branch
/// leaves it tainted, a branch that did not reassign it keeping its entry
/// state.
pub fn join_branches(
    entry: &VarSet,
    then_state: &VarSet,
    then_touched: &VarSet,
    else_state: &VarSet,
    else_touched: &VarSet,
) -> (r: VarSet)
    ensures
        r.wf(),
        r@ == joined(entry@, then_state@, then_touched@, else_state@, else_touched@),
{
    let mut out = VarSet::new();
    add_effective(&mut out, entry, entry, then_state, then_touched, else_state, else_touched);
    add_effective(&mut out, then_state, entry, then_state, then_touched, else_state, else_touched);
    add_effective(&mut out, else_state, entry, then_state, then_touched, else_state, else_touched);
    assert(out@ =~= joined(entry@, then_state@, then_touched@, else_state@, else_touched@));
    out
}

/// The child under `field` is one of the node's children.
proof fn lemma_field_child(n: SyntaxNode, field: Seq<char>)
    requires
        field_child(n, field) is Some,
    ensures
        0 <= field_index(n.children@, field, 0) < n.children@.len(),
        field_child(n, field) == Some(n.children@[field_index(n.children@, field, 0)]),
{
}

/// A call kind is never a function, branch, loop, declaration or
/// assignment kind: the walk handles a call node as a call.
proof fn lemma_call_kind_is_plain(language: Language, kind: Seq<char>)
    requires
        spec_call(language, kind),
    ensures
        !spec_method_like(language, kind),
        kind != "if_statement"@,
        !spec_loop(language, kind),
        !spec_declaration(language, kind),
        !spec_assignment(language, kind),
{
    reveal_strlit("method_invocation");
    reveal_strlit("object_creation_expression");
    reveal_strlit("call_expression");
    reveal_strlit("call");
    reveal_strlit("method_declaration");
    reveal_strlit("constructor_declaration");
    reveal_strlit("function_declaration");
    reveal_strlit("function_expression");
    reveal_strlit("arrow_function");
    reveal_strlit("method_definition");
    reveal_strlit("function_definition");
    reveal_strlit("if_statement");
    reveal_strlit("while_statement");
    reveal_strlit("do_statement");
    reveal_strlit("for_statement");
    reveal_strlit("enhanced_for_statement");
    reveal_strlit("for_in_statement");
    reveal_strlit("lexical_declaration");
    reveal_strlit("variable_declaration");
    reveal_strlit("var_spec");
    reveal_strlit("local_variable_declaration");
    reveal_strlit("assignment");
    reveal_strlit("assignment_statement");
    reveal_strlit("short_var_declaration");
    reveal_strlit("assignment_expression");
    assert("object_creation_expression"@[0] != "local_variable_declaration"@[0]);
    assert("call_expression"@[0] != "while_statement"@[0]);
    assert(kind.len() != "if_statement"@.len());
    match language {
        Language::Java => {
            assert(kind.len() != "method_declaration"@.len());
            assert(kind.len() != "constructor_declaration"@.len());
        },
        Language::JavaScript | Language::TypeScript => {
            assert(kind.len() != "function_declaration"@.len());
            assert(kind.len() != "function_expression"@.len());
            assert(kind.len() != "arrow_function"@.len());
            assert(kind.len() != "method_definition"@.len());
        },
        Language::Python => {
            assert(kind.len() != "function_definition"@.len());
        },
        Language::Go => {
            assert(kind.len() != "function_declaration"@.len());
            assert(kind.len() != "method_declaration"@.len());
        },
        Language::Unknown => {},
    }
}

/// A function kind is not the `if` kind.
proof fn lemma_method_kind_is_not_if(language: Language, kind: Seq<char>)
    requires
        spec_method_like(language, kind),
    ensures
        kind != "if_statement"@,
{
    reveal_strlit("if_statement");
    reveal_strlit("method_declaration");
    reveal_strlit("constructor_declaration");
    reveal_strlit("function_declaration");
    reveal_strlit("function_expression");
    reveal_strlit("arrow_function");
    reveal_strlit("method_definition");
    reveal_strlit("function_definition");
    assert(kind.len() != "if_statement"@.len());
}

/// The nodes the walk meets under `n`, `n` included: every descendant,
/// except that of an `if` statement only its two branches are entered.
pub open spec fn walk_visits(n: SyntaxNode, m: SyntaxNode) -> bool
    decreases n,
{
    if n == m {
        true
    } else if n.kind@ == "if_statement"@ {
        let c = field_index(n.children@, "consequence"@, 0);
        let a = field_index(n.children@, "alternative"@, 0);
        (0 <= c < n.children@.len() && walk_visits(n.children@[c], m)) || (0 <= a < n.children@.len()
            && walk_visits(n.children@[a], m))
    } else {
        exists|k: int| 0 <= k < n.children@.len() && walk_visits(#[trigger] n.children@[k], m)
    }
}

/// A call whose text names a configured sink and contains a configured
/// source.
pub open spec fn exposed_sink(language: Language, m: SyntaxNode, src: Seq<u8>, config: TaintConfig) -> bool {
    &&& spec_call(language, m.kind@)
    &&& node_text(m, src) matches Some(t) && mentions(t, config.sinks@) && mentions(t, config.sources@)
}

/// Some finding has exactly `m`'s span.
pub open spec fn found_at(fs: Seq<TaintFinding>, m: SyntaxNode) -> bool {
    exists|i: int| 0 <= i < fs.len() && (#[trigger] fs[i]).start_byte == m.start_byte && fs[i].end_byte == m.end_byte
}

/// Every exposed sink call the walk meets under `n` has a finding.
pub open spec fn covers(fs: Seq<TaintFinding>, language: Language, n: SyntaxNode, src: Seq<u8>, config: TaintConfig) -> bool {
    forall|m: SyntaxNode| #[trigger] walk_visits(n, m) && exposed_sink(language, m, src, config) ==> found_at(fs, m)
}

/// `b` starts with `a`.
pub open spec fn extends(a: Seq<TaintFinding>, b: Seq<TaintFinding>) -> bool {
    a.len() <= b.len() && forall|i: int| 0 <= i < a.len() ==> b[i] == #[trigger] a[i]
}

proof fn lemma_found_kept(a: Seq<TaintFinding>, b: Seq<TaintFinding>, m: SyntaxNode)
    requires
        extends(a, b),
        found_at(a, m),
    ensures
        found_at(b, m),
{
    let i = choose|i: int| 0 <= i < a.len() && (#[trigger] a[i]).start_byte == m.start_byte && a[i].end_byte == m.end_byte;
    assert(b[i] == a[i]);
}

proof fn lemma_covers_kept(a: Seq<TaintFinding>, b: Seq<TaintFinding>, language: Language, n: SyntaxNode, src: Seq<u8>, config: TaintConfig)
    requires
        extends(a, b),
        covers(a, language, n, src, config),
    ensures
        covers(b, language, n, src, config),
{
    assert forall|m: SyntaxNode| #[trigger] walk_visits(n, m) && exposed_sink(language, m, src, config) implies found_at(b, m) by {
        lemma_found_kept(a, b, m);
    }
}

/// Under a node other than an `if`, the walk meets the node itself and
/// what it meets under each child.
proof fn lemma_covers_from_children(fs: Seq<TaintFinding>, language: Language, n: SyntaxNode, src: Seq<u8>, config: TaintConfig)
    requires
        n.kind@ != "if_statement"@,
        forall|j: int| 0 <= j < n.children@.len() ==> covers(fs, language, #[trigger] n.children@[j], src, config),
        exposed_sink(language, n, src, config) ==> found_at(fs, n),
    ensures
        covers(fs, language, n, src, config),
{
    assert forall|m: SyntaxNode| #[trigger] walk_visits(n, m) && exposed_sink(language, m, src, config) implies found_at(fs, m) by {
        if n != m {
            let k = choose|k: int| 0 <= k < n.children@.len() && walk_visits(#[trigger] n.children@[k], m);
            assert(covers(fs, language, n.children@[k], src, config));
        }
    }
}

/// Under an `if`, the walk meets what it meets under its two branches.
proof fn lemma_covers_if(fs: Seq<TaintFinding>, language: Language, n: SyntaxNode, src: Seq<u8>, config: TaintConfig)
    requires
        n.kind@ == "if_statement"@,
        field_child(n, "consequence"@) matches Some(c) ==> covers(fs, language, c, src, config),
        field_child(n, "alternative"@) matches Some(c) ==> covers(fs, language, c, src, config),
    ensures
        covers(fs, language, n, src, config),
{
    if spec_call(language, n.kind@) {
        lemma_call_kind_is_plain(language, n.kind@);
    }
    assert forall|m: SyntaxNode| #[trigger] walk_visits(n, m) && exposed_sink(language, m, src, config) implies found_at(fs, m) by {
        if n != m {
            let c = field_index(n.children@, "consequence"@, 0);
            let a = field_index(n.children@, "alternative"@, 0);
            if 0 <= c < n.children@.len() && walk_visits(n.children@[c], m) {
                assert(field_child(n, "consequence"@) == Some(n.children@[c]));
                assert(covers(fs, language, n.children@[c], src, config));
            } else {
                assert(0 <= a < n.children@.len() && walk_visits(n.children@[a], m));
                assert(field_child(n, "alternative"@) == Some(n.children@[a]));
                assert(covers(fs, language, n.children@[a], src, config));
            }
        } else {
            assert(!spec_call(language, n.kind@));
        }
    }
}

/// The variable a declaration or assignment node names as its target.
pub open spec fn target_of(language: Language, n: SyntaxNode, src: Seq<u8>) -> Option<Seq<char>> {
    if spec_declaration(language, n.kind@) {
        declared_name(n, src)
    } else if spec_assignment(language, n.kind@) {
        match assigned_sides(n, src) {
            Some(p) => Some(p.0),
            None => None,
        }
    } else {
        None
    }
}

/// Some declaration or assignment in the subtree of `n` targets `v`.
pub open spec fn assigns(language: Language, n: SyntaxNode, src: Seq<u8>, v: Seq<char>) -> bool
    decreases n,
{
    target_of(language, n, src) == Some(v) || exists|k: int|
        0 <= k < n.children@.len() && assigns(language, #[trigger] n.children@[k], src, v)
}

/// A node the walk handles by its own kind (not a function, branch or loop).
pub open spec fn plain_kind(language: Language, kind: Seq<char>) -> bool {
    !spec_method_like(language, kind) && kind != "if_statement"@ && !spec_loop(language, kind)
}

/// The target a plain declaration or assignment surely taints, given the
/// variables `s` surely tainted before it: its value calls no sanitizer and
/// contains a source or mentions one of `s`.
pub open spec fn taints_target(language: Language, config: TaintConfig, n: SyntaxNode, src: Seq<u8>, s: Set<Seq<char>>) -> Option<Seq<char>> {
    if !plain_kind(language, n.kind@) {
        None
    } else {
        let tv: Option<(Seq<char>, Seq<char>)> = if spec_declaration(language, n.kind@) {
            match (declared_name(n, src), declared_value(n, src)) {
                (Some(v), Some(val)) => Some((v, val)),
                _ => None,
            }
        } else if spec_assignment(language, n.kind@) {
            assigned_sides(n, src)
        } else {
            None
        };
        match tv {
            Some(p) => if !mentions(p.1, config.sanitizers@) && (mentions(p.1, config.sources@) || taints_text(p.1, s)) {
                Some(p.0)
            } else {
                None
            },
            None => None,
        }
    }
}

/// Some child of `n` targets `v`.
pub open spec fn children_assign(language: Language, n: SyntaxNode, src: Seq<u8>, v: Seq<char>) -> bool {
    exists|k: int| 0 <= k < n.children@.len() && assigns(language, #[trigger] n.children@[k], src, v)
}

/// The variables surely tainted after walking `n` from `s`: those of `s`
/// it does not reassign, and the target it surely taints.
pub open spec fn step(language: Language, config: TaintConfig, n: SyntaxNode, src: Seq<u8>, s: Set<Seq<char>>) -> Set<Seq<char>> {
    let kept = s.filter(|v: Seq<char>| !assigns(language, n, src, v));
    match taints_target(language, config, n, src, s) {
        Some(v) => if children_assign(language, n, src, v) {
            kept
        } else {
            kept.insert(v)
        },
        None => kept,
    }
}

/// The variables surely tainted after walking the statements `cs` in order
/// from `s`.
pub open spec fn block_taint(language: Language, config: TaintConfig, cs: Seq<SyntaxNode>, src: Seq<u8>, s: Set<Seq<char>>) -> Set<Seq<char>>
    decreases cs.len(),
{
    if cs.len() == 0 {
        s
    } else {
        step(language, config, cs.last(), src, block_taint(language, config, cs.drop_last(), src, s))
    }
}

/// Taint flows through the statements under `n`, walked from `s`: a sink
/// call met inside child `k` is reported when it mentions a variable surely
/// tainted by the children before it and not reassigned in child `k`.
pub open spec fn block_flows(language: Language, config: TaintConfig, src: Seq<u8>, fs: Seq<TaintFinding>, n: SyntaxNode, s: Set<Seq<char>>) -> bool {
    forall|k: int, m: SyntaxNode|
        0 <= k < n.children@.len() && #[trigger] walk_visits(n.children@[k], m) && sink_call_tainted_by(
            language,
            config,
            m,
            src,
            block_taint(language, config, n.children@.subrange(0, k), src, s).filter(
                |v: Seq<char>| !assigns(language, n.children@[k], src, v),
            ),
        ) ==> found_at(fs, m)
}

/// Taint flows through the statements under `n`, walked from nothing.
pub open spec fn flows_found(language: Language, config: TaintConfig, src: Seq<u8>, fs: Seq<TaintFinding>, n: SyntaxNode) -> bool {
    block_flows(language, config, src, fs, n, Set::empty())
}

/// Taint flows through the statements of every node the walk meets under
/// `node` and whose children it enters in order.
pub open spec fn deep_flows(language: Language, config: TaintConfig, src: Seq<u8>, fs: Seq<TaintFinding>, node: SyntaxNode) -> bool {
    forall|n2: SyntaxNode| #[trigger] walk_visits(node, n2) && n2.kind@ != "if_statement"@ ==> flows_found(language, config, src, fs, n2)
}

/// A sink call met under `n` that mentions a variable of `s` not
/// reassigned under `n` is reported.
pub open spec fn flows_from(language: Language, config: TaintConfig, src: Seq<u8>, fs: Seq<TaintFinding>, n: SyntaxNode, s: Set<Seq<char>>) -> bool {
    forall|m: SyntaxNode|
        #[trigger] walk_visits(n, m) && sink_call_tainted_by(
            language,
            config,
            m,
            src,
            s.filter(|v: Seq<char>| !assigns(language, n, src, v)),
        ) ==> found_at(fs, m)
}

proof fn lemma_block_flows_kept(language: Language, config: TaintConfig, src: Seq<u8>, a: Seq<TaintFinding>, b: Seq<TaintFinding>, n: SyntaxNode, s: Set<Seq<char>>)
    requires
        extends(a, b),
        block_flows(language, config, src, a, n, s),
    ensures
        block_flows(language, config, src, b, n, s),
{
    assert forall|k: int, m: SyntaxNode|
        0 <= k < n.children@.len() && #[trigger] walk_visits(n.children@[k], m) && sink_call_tainted_by(
            language,
            config,
            m,
            src,
            block_taint(language, config, n.children@.subrange(0, k), src, s).filter(
                |v: Seq<char>| !assigns(language, n.children@[k], src, v),
            ),
        ) implies found_at(b, m) by {
        lemma_found_kept(a, b, m);
    }
}

proof fn lemma_flows_found_kept(language: Language, config: TaintConfig, src: Seq<u8>, a: Seq<TaintFinding>, b: Seq<TaintFinding>, n: SyntaxNode)
    requires
        extends(a, b),
        flows_found(language, config, src, a, n),
    ensures
        flows_found(language, config, src, b, n),
{
    lemma_block_flows_kept(language, config, src, a, b, n, Set::empty());
}

/// A sink call mentioning a variable of `a` mentions one of any `b` that
/// holds `a`.
proof fn lemma_sink_mono(language: Language, config: TaintConfig, m: SyntaxNode, src: Seq<u8>, a: Set<Seq<char>>, b: Set<Seq<char>>)
    requires
        sink_call_tainted_by(language, config, m, src, a),
        a.subset_of(b),
    ensures
        sink_call_tainted_by(language, config, m, src, b),
{
    lemma_taints_text_mono(node_text(m, src)->0, a, b);
}

/// Block flow from more surely-tainted variables implies block flow from
/// fewer.
proof fn lemma_block_flows_mono(language: Language, config: TaintConfig, src: Seq<u8>, fs: Seq<TaintFinding>, n: SyntaxNode, a: Set<Seq<char>>, b: Set<Seq<char>>)
    requires
        block_flows(language, config, src, fs, n, b),
        a.subset_of(b),
    ensures
        block_flows(language, config, src, fs, n, a),
{
    assert forall|k: int, m: SyntaxNode|
        0 <= k < n.children@.len() && #[trigger] walk_visits(n.children@[k], m) && sink_call_tainted_by(
            language,
            config,
            m,
            src,
            block_taint(language, config, n.children@.subrange(0, k), src, a).filter(
                |v: Seq<char>| !assigns(language, n.children@[k], src, v),
            ),
        ) implies found_at(fs, m) by {
        let c = n.children@[k];
        lemma_block_mono(language, config, n.children@.subrange(0, k), src, a, b);
        let fa = block_taint(language, config, n.children@.subrange(0, k), src, a).filter(
            |v: Seq<char>| !assigns(language, c, src, v),
        );
        let fb = block_taint(language, config, n.children@.subrange(0, k), src, b).filter(
            |v: Seq<char>| !assigns(language, c, src, v),
        );
        assert(fa.subset_of(fb));
        lemma_sink_mono(language, config, m, src, fa, fb);
    }
}

/// From the flows of its children (walked from `inner`, which keeps every
/// variable of `entry` that `n` does not reassign) and its own report, a
/// node other than an `if` has its own flows.
proof fn lemma_node_flows(
    language: Language,
    config: TaintConfig,
    src: Seq<u8>,
    fs: Seq<TaintFinding>,
    n: SyntaxNode,
    entry: Set<Seq<char>>,
    inner: Set<Seq<char>>,
)
    requires
        n.kind@ != "if_statement"@,
        block_flows(language, config, src, fs, n, inner),
        forall|v: Seq<char>| entry.contains(v) && !assigns(language, n, src, v) ==> #[trigger] inner.contains(v),
        forall|k: int| 0 <= k < n.children@.len() ==> deep_flows(language, config, src, fs, #[trigger] n.children@[k]),
        sink_call_tainted_by(language, config, n, src, entry.filter(|v: Seq<char>| !assigns(language, n, src, v)))
            ==> found_at(fs, n),
    ensures
        flows_from(language, config, src, fs, n, entry),
        deep_flows(language, config, src, fs, n),
{
    let ef = entry.filter(|v: Seq<char>| !assigns(language, n, src, v));
    assert forall|m: SyntaxNode| #[trigger] walk_visits(n, m) && sink_call_tainted_by(language, config, m, src, ef) implies found_at(
        fs,
        m,
    ) by {
        if m != n {
            let k = choose|k: int| 0 <= k < n.children@.len() && walk_visits(#[trigger] n.children@[k], m);
            let c = n.children@[k];
            let bk = block_taint(language, config, n.children@.subrange(0, k), src, inner).filter(
                |v: Seq<char>| !assigns(language, c, src, v),
            );
            assert forall|v: Seq<char>| ef.contains(v) implies bk.contains(v) by {
                assert(inner.contains(v));
                assert forall|j: int| 0 <= j < n.children@.subrange(0, k).len() implies !assigns(
                    language,
                    #[trigger] n.children@.subrange(0, k)[j],
                    src,
                    v,
                ) by {
                    assert(n.children@.subrange(0, k)[j] == n.children@[j]);
                }
                lemma_block_keeps(language, config, n.children@.subrange(0, k), src, inner, v);
            }
            lemma_sink_mono(language, config, m, src, ef, bk);
        }
    }
    assert forall|n2: SyntaxNode| #[trigger] walk_visits(n, n2) && n2.kind@ != "if_statement"@ implies flows_found(
        language,
        config,
        src,
        fs,
        n2,
    ) by {
        if n2 == n {
            lemma_block_flows_mono(language, config, src, fs, n, Set::empty(), inner);
        } else {
            let k = choose|k: int| 0 <= k < n.children@.len() && walk_visits(#[trigger] n.children@[k], n2);
            assert(deep_flows(language, config, src, fs, n.children@[k]));
        }
    }
}

proof fn lemma_deep_flows_kept(language: Language, config: TaintConfig, src: Seq<u8>, a: Seq<TaintFinding>, b: Seq<TaintFinding>, n: SyntaxNode)
    requires
        extends(a, b),
        deep_flows(language, config, src, a, n),
    ensures
        deep_flows(language, config, src, b, n),
{
    assert forall|n2: SyntaxNode| #[trigger] walk_visits(n, n2) && n2.kind@ != "if_statement"@ implies flows_found(
        language,
        config,
        src,
        b,
        n2,
    ) by {
        lemma_flows_found_kept(language, config, src, a, b, n2);
    }
}

proof fn lemma_flows_from_kept(language: Language, config: TaintConfig, src: Seq<u8>, a: Seq<TaintFinding>, b: Seq<TaintFinding>, n: SyntaxNode, s: Set<Seq<char>>)
    requires
        extends(a, b),
        flows_from(language, config, src, a, n, s),
    ensures
        flows_from(language, config, src, b, n, s),
{
    assert forall|m: SyntaxNode|
        #[trigger] walk_visits(n, m) && sink_call_tainted_by(
            language,
            config,
            m,
            src,
            s.filter(|v: Seq<char>| !assigns(language, n, src, v)),
        ) implies found_at(b, m) by {
        lemma_found_kept(a, b, m);
    }
}

/// Walking a statement keeps more surely-tainted variables when it starts
/// from more.
proof fn lemma_step_mono(language: Language, config: TaintConfig, n: SyntaxNode, src: Seq<u8>, a: Set<Seq<char>>, b: Set<Seq<char>>)
    requires
        a.subset_of(b),
    ensures
        step(language, config, n, src, a).subset_of(step(language, config, n, src, b)),
{
    let ta = taints_target(language, config, n, src, a);
    let tb = taints_target(language, config, n, src, b);
    if ta is Some {
        let tv: Option<(Seq<char>, Seq<char>)> = if spec_declaration(language, n.kind@) {
            match (declared_name(n, src), declared_value(n, src)) {
                (Some(v), Some(val)) => Some((v, val)),
                _ => None,
            }
        } else if spec_assignment(language, n.kind@) {
            assigned_sides(n, src)
        } else {
            None
        };
        match tv {
            Some(p) => {
                if taints_text(p.1, a) {
                    lemma_taints_text_mono(p.1, a, b);
                }
            },
            None => {},
        }
        assert(tb == ta);
    }
}

proof fn lemma_block_mono(language: Language, config: TaintConfig, cs: Seq<SyntaxNode>, src: Seq<u8>, a: Set<Seq<char>>, b: Set<Seq<char>>)
    requires
        a.subset_of(b),
    ensures
        block_taint(language, config, cs, src, a).subset_of(block_taint(language, config, cs, src, b)),
    decreases cs.len(),
{
    if cs.len() > 0 {
        lemma_block_mono(language, config, cs.drop_last(), src, a, b);
        lemma_step_mono(
            language,
            config,
            cs.last(),
            src,
            block_taint(language, config, cs.drop_last(), src, a),
            block_taint(language, config, cs.drop_last(), src, b),
        );
    }
}

/// What no statement of `cs` reassigns survives them.
proof fn lemma_block_keeps(language: Language, config: TaintConfig, cs: Seq<SyntaxNode>, src: Seq<u8>, s: Set<Seq<char>>, v: Seq<char>)
    requires
        s.contains(v),
        forall|k: int| 0 <= k < cs.len() ==> !assigns(language, #[trigger] cs[k], src, v),
    ensures
        block_taint(language, config, cs, src, s).contains(v),
    decreases cs.len(),
{
    if cs.len() > 0 {
        assert forall|k: int| 0 <= k < cs.drop_last().len() implies !assigns(language, #[trigger] cs.drop_last()[k], src, v) by {
            assert(cs.drop_last()[k] == cs[k]);
        }
        lemma_block_keeps(language, config, cs.drop_last(), src, s, v);
        assert(!assigns(language, cs[cs.len() - 1], src, v));
    }
}

impl<'a> Engine<'a> {
    /// The walk over the analyzed file: each function is its own taint
    /// scope, branches and loops are joined, declarations, assignments and
    /// sink calls are handled in source order.
    fn walk(&self, flow: &mut Flow, node: &SyntaxNode)
        requires
            old(flow).ok(*self.config),
            self.wf(),
            positions_fit(*node),
        ensures
            grows(*self.config, *old(flow), *final(flow)),
            spec_method_like(self.language, node.kind@) ==> final(flow).tainted@ == old(flow).tainted@,
            covers(final(flow).findings@, self.language, *node, sbytes(self.source), *self.config),
            forall|v: Seq<char>|
                #[trigger] step(self.language, *self.config, *node, sbytes(self.source), old(flow).tainted@).contains(v)
                    ==> final(flow).tainted@.contains(v),
            forall|v: Seq<char>|
                #[trigger] final(flow).touched@.contains(v) ==> old(flow).touched@.contains(v) || assigns(
                    self.language,
                    *node,
                    sbytes(self.source),
                    v,
                ),
            flows_from(self.language, *self.config, sbytes(self.source), final(flow).findings@, *node, old(flow).tainted@),
            deep_flows(self.language, *self.config, sbytes(self.source), final(flow).findings@, *node),
            self.walk_bounded(
                *node,
                old(flow).tainted@,
                old(flow).touched@,
                final(flow).tainted@,
                final(flow).touched@,
                old(flow).findings@,
                final(flow).findings@,
            ),
        decreases node_size(*node), 2int,
    {
        let ghost src = sbytes(self.source);
        let ghost lang = self.language;
        let ghost cfg = *self.config;
        let ghost t0 = flow.tainted@;
        let ghost u0 = flow.touched@;
        proof {
            if spec_call(self.language, node.kind@) {
                lemma_call_kind_is_plain(self.language, node.kind@);
            }
        }
        let ghost names = self.names();
        let ghost f0 = flow.findings@;
        if is_method_like(self.language, node.kind.as_str()) {
            let saved = flow.tainted.copy();
            self.walk_children(flow, node);
            flow.tainted = saved;
            proof {
                assert forall|st: (Set<Seq<char>>, Set<Seq<char>>)| t0.subset_of(st.0) && u0 == st.1 implies {
                    &&& flow.tainted@.subset_of(may_walk(lang, cfg, names, *node, src, st).0)
                    &&& flow.touched@ == may_walk(lang, cfg, names, *node, src, st).1
                    &&& forall|i: int|
                        f0.len() <= i < flow.findings@.len() ==> self.callee_report(#[trigger] flow.findings@[i]) || may_reports(
                            lang,
                            cfg,
                            names,
                            *node,
                            src,
                            st,
                            flow.findings@[i],
                        )
                } by {
                    let w = may_children(lang, cfg, names, node.children@, src, st);
                    assert(may_walk(lang, cfg, names, *node, src, st) == (st.0, w.1));
                }
            }
            proof {
                lemma_method_kind_is_not_if(self.language, node.kind@);
                lemma_covers_from_children(flow.findings@, self.language, *node, src, *self.config);
                lemma_node_flows(lang, cfg, src, flow.findings@, *node, t0, t0);
                assert forall|v: Seq<char>| #[trigger] flow.touched@.contains(v) implies u0.contains(v) || assigns(lang, *node, src, v) by {
                    if !u0.contains(v) {
                        let k = choose|k: int| 0 <= k < node.children@.len() && assigns(lang, #[trigger] node.children@[k], src, v);
                    }
                }
            }
            return;
        }
        if str_eq(node.kind.as_str(), "if_statement") {
            self.walk_if(flow, node);
            proof {
                assert forall|st: (Set<Seq<char>>, Set<Seq<char>>)| t0.subset_of(st.0) && u0 == st.1 implies {
                    &&& flow.tainted@.subset_of(may_walk(lang, cfg, names, *node, src, st).0)
                    &&& flow.touched@ == may_walk(lang, cfg, names, *node, src, st).1
                    &&& forall|i: int|
                        f0.len() <= i < flow.findings@.len() ==> self.callee_report(#[trigger] flow.findings@[i]) || may_reports(
                            lang,
                            cfg,
                            names,
                            *node,
                            src,
                            st,
                            flow.findings@[i],
                        )
                } by {
                    let th = may_branch(lang, cfg, names, *node, "consequence"@, src, st.0);
                    let el = may_branch(lang, cfg, names, *node, "alternative"@, src, st.0);
                    assert(may_walk(lang, cfg, names, *node, src, st) == (joined(st.0, th.0, th.1, el.0, el.1), Set::<Seq<char>>::empty()));
                }
            }
            return;
        }
        if is_loop(self.language, node.kind.as_str()) {
            self.walk_loop(flow, node);
            proof {
                assert forall|st: (Set<Seq<char>>, Set<Seq<char>>)| t0.subset_of(st.0) && u0 == st.1 implies {
                    &&& flow.tainted@.subset_of(may_walk(lang, cfg, names, *node, src, st).0)
                    &&& flow.touched@ == may_walk(lang, cfg, names, *node, src, st).1
                    &&& forall|i: int|
                        f0.len() <= i < flow.findings@.len() ==> self.callee_report(#[trigger] flow.findings@[i]) || may_reports(
                            lang,
                            cfg,
                            names,
                            *node,
                            src,
                            st,
                            flow.findings@[i],
                        )
                } by {
                    let w = may_children(lang, cfg, names, node.children@, src, st);
                    assert(may_walk(lang, cfg, names, *node, src, st) == (st.0.union(w.0), w.1));
                }
                lemma_covers_from_children(flow.findings@, self.language, *node, src, *self.config);
                lemma_node_flows(lang, cfg, src, flow.findings@, *node, t0, t0);
                assert forall|v: Seq<char>| #[trigger] flow.touched@.contains(v) implies u0.contains(v) || assigns(lang, *node, src, v) by {
                    if !u0.contains(v) {
                        let k = choose|k: int| 0 <= k < node.children@.len() && assigns(lang, #[trigger] node.children@[k], src, v);
                    }
                }
            }
            return;
        }
        let empty: Vec<String> = Vec::new();
        if is_declaration(self.language, node.kind.as_str()) {
            self.handle_local_declaration(flow, node, self.source, &empty);
        } else if is_assignment(self.language, node.kind.as_str()) {
            self.handle_assignment(flow, node, self.source, &empty);
        } else if is_call(self.language, node.kind.as_str()) {
            self.handle_sink_expression(flow, node);
        }
        let ghost mid = flow.findings@;
        let ghost t1 = flow.tainted@;
        let ghost u1 = flow.touched@;
        proof {
            assert forall|st: (Set<Seq<char>>, Set<Seq<char>>)| t0.subset_of(st.0) && u0 == st.1 implies {
                &&& t1.subset_of(may_step(lang, cfg, names, *node, src, st).0)
                &&& u1 == may_step(lang, cfg, names, *node, src, st).1
                &&& forall|i: int|
                    f0.len() <= i < mid.len() ==> self.callee_report(#[trigger] mid[i]) || may_report_at(
                        lang,
                        cfg,
                        names,
                        *node,
                        src,
                        st,
                        mid[i],
                    )
            } by {
                let ms = may_step(lang, cfg, names, *node, src, st);
                if spec_declaration(lang, node.kind@) {
                    match declared_name(*node, src) {
                        Some(name) => match declared_value(*node, src) {
                            Some(v) => {
                                lemma_may_assign_mono(cfg, names, t0, st.0, name, v);
                            },
                            None => {},
                        },
                        None => {},
                    }
                } else if spec_assignment(lang, node.kind@) {
                    match assigned_sides(*node, src) {
                        Some((tg, v)) => {
                            lemma_may_assign_mono(cfg, names, t0, st.0, tg, v);
                            assert forall|i: int| f0.len() <= i < mid.len() implies self.callee_report(#[trigger] mid[i]) || may_report_at(
                                lang,
                                cfg,
                                names,
                                *node,
                                src,
                                st,
                                mid[i],
                            ) by {
                                if !self.callee_report(mid[i]) {
                                    lemma_may_taint_mono(cfg, names, v, t1, ms.0);
                                }
                            }
                        },
                        None => {},
                    }
                } else if spec_call(lang, node.kind@) {
                    assert forall|i: int| f0.len() <= i < mid.len() implies self.callee_report(#[trigger] mid[i]) || may_report_at(
                        lang,
                        cfg,
                        names,
                        *node,
                        src,
                        st,
                        mid[i],
                    ) by {
                        if !self.callee_report(mid[i]) {
                            let tx = node_text(*node, src)->0;
                            lemma_may_taint_mono(cfg, names, tx, t0, st.0);
                        }
                    }
                }
            }
            assert forall|v: Seq<char>| t0.contains(v) && !assigns(lang, *node, src, v) implies #[trigger] t1.contains(v) by {
            }
            assert forall|v: Seq<char>| #[trigger] u1.contains(v) implies u0.contains(v) || assigns(lang, *node, src, v) by {
            }
            if sink_call_tainted_by(lang, cfg, *node, src, t0.filter(|v: Seq<char>| !assigns(lang, *node, src, v))) {
                lemma_sink_mono(lang, cfg, *node, src, t0.filter(|v: Seq<char>| !assigns(lang, *node, src, v)), t0);
            }
        }
        self.walk_children(flow, node);
        proof {
            if exposed_sink(self.language, *node, src, *self.config) {
                lemma_found_kept(mid, flow.findings@, *node);
            }
            if sink_call_tainted_by(lang, cfg, *node, src, t0.filter(|v: Seq<char>| !assigns(lang, *node, src, v))) {
                lemma_found_kept(mid, flow.findings@, *node);
            }
            lemma_covers_from_children(flow.findings@, self.language, *node, src, *self.config);
            lemma_node_flows(lang, cfg, src, flow.findings@, *node, t0, t1);
            assert forall|v: Seq<char>| #[trigger] flow.touched@.contains(v) implies u0.contains(v) || assigns(lang, *node, src, v) by {
                if !u1.contains(v) {
                    let k = choose|k: int| 0 <= k < node.children@.len() && assigns(lang, #[trigger] node.children@[k], src, v);
                }
            }
            assert forall|v: Seq<char>| #[trigger] step(lang, cfg, *node, src, t0).contains(v) implies flow.tainted@.contains(v) by {
                assert forall|j: int| 0 <= j < node.children@.len() implies !assigns(lang, #[trigger] node.children@[j], src, v) by {
                    if assigns(lang, node.children@[j], src, v) {
                        assert(children_assign(lang, *node, src, v));
                    }
                }
                if !t1.contains(v) {
                    assert(taints_target(lang, cfg, *node, src, t0) == Some(v));
                }
                lemma_block_keeps(lang, cfg, node.children@, src, t1, v);
            }
            assert forall|st: (Set<Seq<char>>, Set<Seq<char>>)| t0.subset_of(st.0) && u0 == st.1 implies {
                &&& flow.tainted@.subset_of(may_walk(lang, cfg, names, *node, src, st).0)
                &&& flow.touched@ == may_walk(lang, cfg, names, *node, src, st).1
                &&& forall|i: int|
                    f0.len() <= i < flow.findings@.len() ==> self.callee_report(#[trigger] flow.findings@[i]) || may_reports(
                        lang,
                        cfg,
                        names,
                        *node,
                        src,
                        st,
                        flow.findings@[i],
                    )
            } by {
                let ms = may_step(lang, cfg, names, *node, src, st);
                assert(t1.subset_of(ms.0) && u1 == ms.1);
                let w = may_children(lang, cfg, names, node.children@, src, ms);
                assert(may_walk(lang, cfg, names, *node, src, st) == w);
                assert forall|i: int|
                    f0.len() <= i < flow.findings@.len() implies self.callee_report(#[trigger] flow.findings@[i]) || may_reports(
                        lang,
                        cfg,
                        names,
                        *node,
                        src,
                        st,
                        flow.findings@[i],
                    ) by {
                    if i < mid.len() {
                        assert(flow.findings@[i] == mid[i]);
                    }
                }
            }
        }
    }

    fn walk_children(&self, flow: &mut Flow, node: &SyntaxNode)
        requires
            old(flow).ok(*self.config),
            self.wf(),
            positions_fit(*node),
        ensures
            grows(*self.config, *old(flow), *final(flow)),
            forall|j: int|
                0 <= j < node.children@.len() ==> covers(
                    final(flow).findings@,
                    self.language,
                    #[trigger] node.children@[j],
                    sbytes(self.source),
                    *self.config,
                ),
            forall|v: Seq<char>|
                #[trigger] block_taint(self.language, *self.config, node.children@, sbytes(self.source), old(flow).tainted@).contains(v)
                    ==> final(flow).tainted@.contains(v),
            forall|v: Seq<char>|
                #[trigger] final(flow).touched@.contains(v) ==> old(flow).touched@.contains(v) || children_assign(
                    self.language,
                    *node,
                    sbytes(self.source),
                    v,
                ),
            block_flows(self.language, *self.config, sbytes(self.source), final(flow).findings@, *node, old(flow).tainted@),
            self.children_bounded(
                node.children@,
                old(flow).tainted@,
                old(flow).touched@,
                final(flow).tainted@,
                final(flow).touched@,
                old(flow).findings@,
                final(flow).findings@,
            ),
            forall|j: int|
                0 <= j < node.children@.len() ==> deep_flows(
                    self.language,
                    *self.config,
                    sbytes(self.source),
                    final(flow).findings@,
                    #[trigger] node.children@[j],
                ),
        decreases node_size(*node), 0int,
    {
        let ghost src = sbytes(self.source);
        let ghost lang = self.language;
        let ghost cfg = *self.config;
        let ghost t0 = flow.tainted@;
        let ghost u0 = flow.touched@;
        let mut k: usize = 0;
        proof {
            assert(node.children@.subrange(0, 0) =~= Seq::<SyntaxNode>::empty());
            let names = self.names();
            assert forall|st: (Set<Seq<char>>, Set<Seq<char>>)|
                t0.subset_of(st.0) && u0 == st.1 implies {
                    &&& flow.tainted@.subset_of(may_children(lang, cfg, names, node.children@.subrange(0, 0), src, st).0)
                    &&& flow.touched@ == may_children(lang, cfg, names, node.children@.subrange(0, 0), src, st).1
                } by {
                assert(may_children(lang, cfg, names, node.children@.subrange(0, 0), src, st) == st);
            }
        }
        while k < node.children.len()
            invariant
                k <= node.children@.len(),
                self.wf(),
                positions_fit(*node),
                src == sbytes(self.source),
                lang == self.language,
                cfg == *self.config,
                grows(*self.config, *old(flow), *flow),
                t0 == old(flow).tainted@,
                u0 == old(flow).touched@,
                forall|j: int|
                    0 <= j < k ==> covers(flow.findings@, self.language, #[trigger] node.children@[j], src, *self.config),
                forall|v: Seq<char>|
                    #[trigger] block_taint(lang, cfg, node.children@.subrange(0, k as int), src, t0).contains(v) ==> flow.tainted@.contains(v),
                forall|v: Seq<char>|
                    #[trigger] flow.touched@.contains(v) ==> u0.contains(v) || children_assign(lang, *node, src, v),
                forall|j: int, m: SyntaxNode|
                    0 <= j < k && #[trigger] walk_visits(node.children@[j], m) && sink_call_tainted_by(
                        lang,
                        cfg,
                        m,
                        src,
                        block_taint(lang, cfg, node.children@.subrange(0, j), src, t0).filter(
                            |v: Seq<char>| !assigns(lang, node.children@[j], src, v),
                        ),
                    ) ==> found_at(flow.findings@, m),
                forall|j: int| 0 <= j < k ==> deep_flows(lang, cfg, src, flow.findings@, #[trigger] node.children@[j]),
                self.children_bounded(
                    node.children@.subrange(0, k as int),
                    t0,
                    u0,
                    flow.tainted@,
                    flow.touched@,
                    old(flow).findings@,
                    flow.findings@,
                ),
            decreases node.children@.len() - k,
        {
            proof {
                lemma_children_fit(node.children@, k as int);
                lemma_child_smaller(*node, k as int);
            }
            let ghost before = flow.findings@;
            let ghost tb = flow.tainted@;
            let ghost ub = flow.touched@;
            let ghost c = node.children@[k as int];
            let ghost bk = block_taint(lang, cfg, node.children@.subrange(0, k as int), src, t0);
            self.walk(flow, &node.children[k]);
            proof {
                assert forall|j: int| 0 <= j < k + 1 implies covers(flow.findings@, self.language, #[trigger] node.children@[j], src, *self.config) by {
                    if j < k {
                        lemma_covers_kept(before, flow.findings@, self.language, node.children@[j], src, *self.config);
                    }
                }
                let sub = node.children@.subrange(0, k + 1);
                assert(sub.drop_last() =~= node.children@.subrange(0, k as int));
                assert(sub.last() == c);
                assert(bk.subset_of(tb));
                lemma_step_mono(lang, cfg, c, src, bk, tb);
                assert forall|v: Seq<char>| #[trigger] block_taint(lang, cfg, sub, src, t0).contains(v) implies flow.tainted@.contains(v) by {
                    assert(step(lang, cfg, c, src, tb).contains(v));
                }
                assert forall|v: Seq<char>| #[trigger] flow.touched@.contains(v) implies u0.contains(v) || children_assign(lang, *node, src, v) by {
                    if !ub.contains(v) {
                        assert(assigns(lang, node.children@[k as int], src, v));
                    }
                }
                assert forall|j: int, m: SyntaxNode|
                    0 <= j < k + 1 && #[trigger] walk_visits(node.children@[j], m) && sink_call_tainted_by(
                        lang,
                        cfg,
                        m,
                        src,
                        block_taint(lang, cfg, node.children@.subrange(0, j), src, t0).filter(
                            |v: Seq<char>| !assigns(lang, node.children@[j], src, v),
                        ),
                    ) implies found_at(flow.findings@, m) by {
                    if j < k {
                        lemma_found_kept(before, flow.findings@, m);
                    } else {
                        let fa = bk.filter(|v: Seq<char>| !assigns(lang, c, src, v));
                        let fb = tb.filter(|v: Seq<char>| !assigns(lang, c, src, v));
                        assert(fa.subset_of(fb));
                        lemma_sink_mono(lang, cfg, m, src, fa, fb);
                    }
                }
                assert forall|j: int| 0 <= j < k + 1 implies deep_flows(lang, cfg, src, flow.findings@, #[trigger] node.children@[j]) by {
                    if j < k {
                        lemma_deep_flows_kept(lang, cfg, src, before, flow.findings@, node.children@[j]);
                    }
                }
                let names = self.names();
                let prefix = node.children@.subrange(0, k as int);
                assert forall|st: (Set<Seq<char>>, Set<Seq<char>>)|
                    t0.subset_of(st.0) && u0 == st.1 implies {
                        &&& flow.tainted@.subset_of(may_children(lang, cfg, names, sub, src, st).0)
                        &&& flow.touched@ == may_children(lang, cfg, names, sub, src, st).1
                        &&& forall|i: int|
                            old(flow).findings@.len() <= i < flow.findings@.len() ==> self.callee_report(#[trigger] flow.findings@[i])
                                || children_reports(lang, cfg, names, sub, src, st, flow.findings@[i])
                    } by {
                    let ms = may_children(lang, cfg, names, prefix, src, st);
                    assert(tb.subset_of(ms.0) && ub == ms.1);
                    let w = may_walk(lang, cfg, names, c, src, ms);
                    assert(may_children(lang, cfg, names, sub, src, st) == w);
                    assert forall|i: int|
                        old(flow).findings@.len() <= i < flow.findings@.len() implies self.callee_report(#[trigger] flow.findings@[i])
                            || children_reports(lang, cfg, names, sub, src, st, flow.findings@[i]) by {
                        if i < before.len() {
                            assert(flow.findings@[i] == before[i]);
                            if !self.callee_report(before[i]) {
                                assert(children_reports(lang, cfg, names, prefix, src, st, before[i]));
                            }
                        } else {
                            if !self.callee_report(flow.findings@[i]) {
                                assert(may_reports(lang, cfg, names, c, src, ms, flow.findings@[i]));
                            }
                        }
                    }
                }
            }
            k = k + 1;
        }
        proof {
            assert(node.children@.subrange(0, node.children@.len() as int) =~= node.children@);
        }
    }

    /// Walks one branch from the entry state; returns the branch's state and
    /// the variables it reassigned.
    fn walk_branch(&self, flow: &mut Flow, node: &SyntaxNode, field: &str, entry: &VarSet) -> (r: (VarSet, VarSet))
        requires
            old(flow).ok(*self.config),
            self.wf(),
            positions_fit(*node),
            entry.wf(),
        ensures
            grows(*self.config, *old(flow), *final(flow)),
            r.0.wf(),
            r.1.wf(),
            field_child(*node, field@) is None ==> r.0@ == entry@ && r.1@ == Set::<Seq<char>>::empty(),
            field_child(*node, field@) matches Some(c) ==> covers(
                final(flow).findings@,
                self.language,
                c,
                sbytes(self.source),
                *self.config,
            ),
            field_child(*node, field@) matches Some(c) ==> flows_from(
                self.language,
                *self.config,
                sbytes(self.source),
                final(flow).findings@,
                c,
                entry@,
            ) && deep_flows(self.language, *self.config, sbytes(self.source), final(flow).findings@, c),
            field_child(*node, field@) matches Some(c) ==> (forall|v: Seq<char>|
                entry@.contains(v) && !assigns(self.language, c, sbytes(self.source), v) ==> #[trigger] r.0@.contains(v)),
            field_child(*node, field@) matches Some(c) ==> (forall|v: Seq<char>|
                #[trigger] r.1@.contains(v) ==> assigns(self.language, c, sbytes(self.source), v)),
            forall|e: Set<Seq<char>>|
                #![trigger may_branch(self.language, *self.config, self.names(), *node, field@, sbytes(self.source), e)]
                entry@.subset_of(e) ==> {
                    &&& r.0@.subset_of(may_branch(self.language, *self.config, self.names(), *node, field@, sbytes(self.source), e).0)
                    &&& r.1@ == may_branch(self.language, *self.config, self.names(), *node, field@, sbytes(self.source), e).1
                    &&& forall|i: int|
                        old(flow).findings@.len() <= i < final(flow).findings@.len() ==> self.callee_report(
                            #[trigger] final(flow).findings@[i],
                        ) || branch_reports(
                            self.language,
                            *self.config,
                            self.names(),
                            *node,
                            field@,
                            sbytes(self.source),
                            e,
                            final(flow).findings@[i],
                        )
                },
        decreases node_size(*node), 0int,
    {
        match field_child_exec(node, field) {
            None => (entry.copy(), VarSet::new()),
            Some(child) => {
                proof {
                    lemma_field_child(*node, field@);
                    let k = field_index(node.children@, field@, 0);
                    lemma_children_fit(node.children@, k);
                    lemma_child_smaller(*node, k);
                }
                flow.tainted = entry.copy();
                flow.touched.clear();
                let ghost t1 = flow.tainted@;
                let ghost u1 = flow.touched@;
                let ghost f1 = flow.findings@;
                self.walk(flow, child);
                proof {
                    let names = self.names();
                    let src = sbytes(self.source);
                    let k = field_index(node.children@, field@, 0);
                    assert forall|e: Set<Seq<char>>| entry@.subset_of(e) implies {
                        &&& flow.tainted@.subset_of(may_branch(self.language, *self.config, names, *node, field@, src, e).0)
                        &&& flow.touched@ == may_branch(self.language, *self.config, names, *node, field@, src, e).1
                        &&& forall|i: int|
                            old(flow).findings@.len() <= i < flow.findings@.len() ==> self.callee_report(#[trigger] flow.findings@[i])
                                || branch_reports(self.language, *self.config, names, *node, field@, src, e, flow.findings@[i])
                    } by {
                        let st = (e, Set::<Seq<char>>::empty());
                        assert(t1.subset_of(st.0) && u1 == st.1);
                        let w = may_walk(self.language, *self.config, names, *child, src, st);
                        assert(may_branch(self.language, *self.config, names, *node, field@, src, e) == w);
                        assert forall|i: int|
                            old(flow).findings@.len() <= i < flow.findings@.len() implies self.callee_report(#[trigger] flow.findings@[i])
                                || branch_reports(self.language, *self.config, names, *node, field@, src, e, flow.findings@[i]) by {
                            if !self.callee_report(flow.findings@[i]) {
                                assert(may_reports(self.language, *self.config, names, *child, src, st, flow.findings@[i]));
                            }
                        }
                    }
                }
                let state = flow.tainted.copy();
                let mut touched = VarSet::new();
                std::mem::swap(&mut flow.touched, &mut touched);
                proof {
                    assert forall|v: Seq<char>| entry@.contains(v) && !assigns(self.language, *child, sbytes(self.source), v) implies #[trigger] state@.contains(v) by {
                        assert(step(self.language, *self.config, *child, sbytes(self.source), entry@).contains(v));
                    }
                }
                (state, touched)
            },
        }
    }

    /// Path-sensitive branch handling: both branches start from the entry
    /// state and are joined afterwards.
    fn walk_if(&self, flow: &mut Flow, node: &SyntaxNode)
        requires
            old(flow).ok(*self.config),
            self.wf(),
            positions_fit(*node),
        ensures
            grows(*self.config, *old(flow), *final(flow)),
            final(flow).touched@ == Set::<Seq<char>>::empty(),
            field_child(*node, "consequence"@) is None && field_child(*node, "alternative"@) is None
                ==> final(flow).tainted@ == old(flow).tainted@,
            node.kind@ == "if_statement"@ ==> covers(
                final(flow).findings@,
                self.language,
                *node,
                sbytes(self.source),
                *self.config,
            ),
            forall|v: Seq<char>|
                old(flow).tainted@.contains(v) && !assigns(self.language, *node, sbytes(self.source), v)
                    ==> #[trigger] final(flow).tainted@.contains(v),
            node.kind@ == "if_statement"@ ==> flows_from(
                self.language,
                *self.config,
                sbytes(self.source),
                final(flow).findings@,
                *node,
                old(flow).tainted@,
            ),
            node.kind@ == "if_statement"@ ==> deep_flows(
                self.language,
                *self.config,
                sbytes(self.source),
                final(flow).findings@,
                *node,
            ),
            forall|e: Set<Seq<char>>|
                #![trigger may_branch(self.language, *self.config, self.names(), *node, "consequence"@, sbytes(self.source), e)]
                old(flow).tainted@.subset_of(e) ==> {
                    let th = may_branch(self.language, *self.config, self.names(), *node, "consequence"@, sbytes(self.source), e);
                    let el = may_branch(self.language, *self.config, self.names(), *node, "alternative"@, sbytes(self.source), e);
                    &&& final(flow).tainted@.subset_of(joined(e, th.0, th.1, el.0, el.1))
                    &&& forall|i: int|
                        old(flow).findings@.len() <= i < final(flow).findings@.len() ==> self.callee_report(
                            #[trigger] final(flow).findings@[i],
                        ) || branch_reports(
                            self.language,
                            *self.config,
                            self.names(),
                            *node,
                            "consequence"@,
                            sbytes(self.source),
                            e,
                            final(flow).findings@[i],
                        ) || branch_reports(
                            self.language,
                            *self.config,
                            self.names(),
                            *node,
                            "alternative"@,
                            sbytes(self.source),
                            e,
                            final(flow).findings@[i],
                        )
                },
        decreases node_size(*node), 1int,
    {
        let ghost src = sbytes(self.source);
        let ghost lang = self.language;
        let ghost cfg = *self.config;
        let ghost t0 = flow.tainted@;
        let entry = flow.tainted.copy();
        let (then_state, then_touched) = self.walk_branch(flow, node, "consequence", &entry);
        let ghost mid = flow.findings@;
        let (else_state, else_touched) = self.walk_branch(flow, node, "alternative", &entry);
        proof {
            if field_child(*node, "consequence"@) is Some {
                let c = field_child(*node, "consequence"@)->0;
                lemma_covers_kept(mid, flow.findings@, self.language, c, src, *self.config);
                lemma_flows_from_kept(lang, cfg, src, mid, flow.findings@, c, t0);
                lemma_deep_flows_kept(lang, cfg, src, mid, flow.findings@, c);
            }
        }
        flow.tainted = join_branches(&entry, &then_state, &then_touched, &else_state, &else_touched);
        flow.touched.clear();
        proof {
            let names = self.names();
            assert forall|e: Set<Seq<char>>| t0.subset_of(e) implies {
                let th = may_branch(lang, cfg, names, *node, "consequence"@, src, e);
                let el = may_branch(lang, cfg, names, *node, "alternative"@, src, e);
                &&& flow.tainted@.subset_of(joined(e, th.0, th.1, el.0, el.1))
                &&& forall|i: int|
                    old(flow).findings@.len() <= i < flow.findings@.len() ==> self.callee_report(#[trigger] flow.findings@[i])
                        || branch_reports(lang, cfg, names, *node, "consequence"@, src, e, flow.findings@[i]) || branch_reports(
                        lang,
                        cfg,
                        names,
                        *node,
                        "alternative"@,
                        src,
                        e,
                        flow.findings@[i],
                    )
            } by {
                let th = may_branch(lang, cfg, names, *node, "consequence"@, src, e);
                let el = may_branch(lang, cfg, names, *node, "alternative"@, src, e);
                lemma_joined_mono(entry@, then_state@, else_state@, e, th.0, el.0, then_touched@, else_touched@);
                assert forall|i: int|
                    old(flow).findings@.len() <= i < flow.findings@.len() implies self.callee_report(#[trigger] flow.findings@[i])
                        || branch_reports(lang, cfg, names, *node, "consequence"@, src, e, flow.findings@[i]) || branch_reports(
                        lang,
                        cfg,
                        names,
                        *node,
                        "alternative"@,
                        src,
                        e,
                        flow.findings@[i],
                    ) by {
                    if i < mid.len() {
                        assert(flow.findings@[i] == mid[i]);
                    }
                }
            }
        }
        proof {
            if field_child(*node, "consequence"@) is None && field_child(*node, "alternative"@) is None {
                assert(flow.tainted@ =~= entry@);
            }
            if node.kind@ == "if_statement"@ {
                lemma_covers_if(flow.findings@, self.language, *node, src, *self.config);
            }
            assert forall|v: Seq<char>| t0.contains(v) && !assigns(lang, *node, src, v) implies #[trigger] flow.tainted@.contains(v) by {
                if field_child(*node, "consequence"@) is Some {
                    lemma_field_child(*node, "consequence"@);
                    let k = field_index(node.children@, "consequence"@, 0);
                    if assigns(lang, node.children@[k], src, v) {
                        assert(assigns(lang, *node, src, v));
                    }
                }
                if field_child(*node, "alternative"@) is Some {
                    lemma_field_child(*node, "alternative"@);
                    let k = field_index(node.children@, "alternative"@, 0);
                    if assigns(lang, node.children@[k], src, v) {
                        assert(assigns(lang, *node, src, v));
                    }
                }
                assert(effective(v, then_state@, then_touched@, entry@));
            }
            if node.kind@ == "if_statement"@ {
                let tf = t0.filter(|v: Seq<char>| !assigns(lang, *node, src, v));
                assert forall|m: SyntaxNode| #[trigger] walk_visits(*node, m) && sink_call_tainted_by(lang, cfg, m, src, tf) implies found_at(
                    flow.findings@,
                    m,
                ) by {
                    if m == *node {
                        lemma_call_kind_is_plain(lang, node.kind@);
                    } else {
                        let c = field_index(node.children@, "consequence"@, 0);
                        let a = field_index(node.children@, "alternative"@, 0);
                        let ch = if 0 <= c < node.children@.len() && walk_visits(node.children@[c], m) {
                            assert(field_child(*node, "consequence"@) == Some(node.children@[c]));
                            node.children@[c]
                        } else {
                            assert(0 <= a < node.children@.len() && walk_visits(node.children@[a], m));
                            assert(field_child(*node, "alternative"@) == Some(node.children@[a]));
                            node.children@[a]
                        };
                        assert(walk_visits(ch, m));
                        assert(flows_from(lang, cfg, src, flow.findings@, ch, t0));
                        let cf = t0.filter(|v: Seq<char>| !assigns(lang, ch, src, v));
                        assert forall|v: Seq<char>| tf.contains(v) implies cf.contains(v) by {
                            if assigns(lang, ch, src, v) {
                                assert(assigns(lang, *node, src, v));
                            }
                        }
                        lemma_sink_mono(lang, cfg, m, src, tf, cf);
                    }
                }
                assert forall|n2: SyntaxNode| #[trigger] walk_visits(*node, n2) && n2.kind@ != "if_statement"@ implies flows_found(
                    lang,
                    cfg,
                    src,
                    flow.findings@,
                    n2,
                ) by {
                    let c = field_index(node.children@, "consequence"@, 0);
                    let a = field_index(node.children@, "alternative"@, 0);
                    if 0 <= c < node.children@.len() && walk_visits(node.children@[c], n2) {
                        assert(field_child(*node, "consequence"@) == Some(node.children@[c]));
                        assert(deep_flows(lang, cfg, src, flow.findings@, node.children@[c]));
                    } else {
                        assert(0 <= a < node.children@.len() && walk_visits(node.children@[a], n2));
                        assert(field_child(*node, "alternative"@) == Some(node.children@[a]));
                        assert(deep_flows(lang, cfg, src, flow.findings@, node.children@[a]));
                    }
                }
            }
        }
    }

    /// A loop body may run zero times: afterwards a variable is tainted when
    /// it was tainted on entry or at the end of the body.
    fn walk_loop(&self, flow: &mut Flow, node: &SyntaxNode)
        requires
            old(flow).ok(*self.config),
            self.wf(),
            positions_fit(*node),
        ensures
            grows(*self.config, *old(flow), *final(flow)),
            old(flow).tainted@.subset_of(final(flow).tainted@),
            forall|j: int|
                0 <= j < node.children@.len() ==> covers(
                    final(flow).findings@,
                    self.language,
                    #[trigger] node.children@[j],
                    sbytes(self.source),
                    *self.config,
                ),
            forall|v: Seq<char>|
                #[trigger] final(flow).touched@.contains(v) ==> old(flow).touched@.contains(v) || children_assign(
                    self.language,
                    *node,
                    sbytes(self.source),
                    v,
                ),
            block_flows(self.language, *self.config, sbytes(self.source), final(flow).findings@, *node, old(flow).tainted@),
            forall|j: int|
                0 <= j < node.children@.len() ==> deep_flows(
                    self.language,
                    *self.config,
                    sbytes(self.source),
                    final(flow).findings@,
                    #[trigger] node.children@[j],
                ),
            forall|st: (Set<Seq<char>>, Set<Seq<char>>)|
                #![trigger may_children(self.language, *self.config, self.names(), node.children@, sbytes(self.source), st)]
                old(flow).tainted@.subset_of(st.0) && old(flow).touched@ == st.1 ==> {
                    let after = may_children(self.language, *self.config, self.names(), node.children@, sbytes(self.source), st);
                    &&& final(flow).tainted@.subset_of(st.0.union(after.0))
                    &&& final(flow).touched@ == after.1
                    &&& forall|i: int|
                        old(flow).findings@.len() <= i < final(flow).findings@.len() ==> self.callee_report(
                            #[trigger] final(flow).findings@[i],
                        ) || children_reports(
                            self.language,
                            *self.config,
                            self.names(),
                            node.children@,
                            sbytes(self.source),
                            st,
                            final(flow).findings@[i],
                        )
                },
        decreases node_size(*node), 1int,
    {
        let mut state = flow.tainted.copy();
        self.walk_children(flow, node);
        let ghost after = flow.tainted@;
        std::mem::swap(&mut flow.tainted, &mut state);
        flow.tainted.extend(&state);
        proof {
            let names = self.names();
            let src = sbytes(self.source);
            assert forall|st: (Set<Seq<char>>, Set<Seq<char>>)|
                old(flow).tainted@.subset_of(st.0) && old(flow).touched@ == st.1 implies {
                    let w = may_children(self.language, *self.config, names, node.children@, src, st);
                    &&& flow.tainted@.subset_of(st.0.union(w.0))
                    &&& flow.touched@ == w.1
                    &&& forall|i: int|
                        old(flow).findings@.len() <= i < flow.findings@.len() ==> self.callee_report(#[trigger] flow.findings@[i])
                            || children_reports(self.language, *self.config, names, node.children@, src, st, flow.findings@[i])
                } by {
                let w = may_children(self.language, *self.config, names, node.children@, src, st);
                assert(after.subset_of(w.0));
            }
        }
    }
}

/// The functions a subtree declares, as (name, declaration): a function's
/// own body is not searched further.
pub open spec fn method_defs(n: SyntaxNode, src: Seq<u8>, language: Language) -> Seq<(Seq<char>, SyntaxNode)>
    decreases n,
{
    if spec_method_like(language, n.kind@) {
        match opt_node_text(field_child(n, "name"@), src) {
            Some(name) => seq![(name, n)],
            None => Seq::empty(),
        }
    } else {
        children_method_defs(n.children@, src, language)
    }
}

pub open spec fn children_method_defs(cs: Seq<SyntaxNode>, src: Seq<u8>, language: Language) -> Seq<(Seq<char>, SyntaxNode)>
    decreases cs,
{
    if cs.len() == 0 {
        Seq::empty()
    } else {
        children_method_defs(cs.drop_last(), src, language) + method_defs(cs.last(), src, language)
    }
}

/// What a list of callees says: (name, declaration).
pub open spec fn callee_view<'a>(cs: Seq<Callee<'a>>) -> Seq<(Seq<char>, SyntaxNode)> {
    cs.map_values(|c: Callee<'a>| (c.name@, *c.node))
}

/// Collects the functions declared under `node` in `source`, in pre-order.
pub fn collect_methods<'a>(node: &'a SyntaxNode, source: &'a str, language: Language, out: &mut Vec<Callee<'a>>)
    requires
        positions_fit(*node),
    ensures
        callee_view(final(out)@) == callee_view(old(out)@) + method_defs(*node, sbytes(source), language),
        forall|i: int| 0 <= i < final(out)@.len() ==> (positions_fit(*(#[trigger] final(out)@[i]).node) || i
            < old(out)@.len()),
        forall|i: int| 0 <= i < old(out)@.len() ==> #[trigger] final(out)@[i] == old(out)@[i],
        forall|i: int| 0 <= i < final(out)@.len() ==> (#[trigger] final(out)@[i]).source == source || i
            < old(out)@.len(),
    decreases node,
{
    let ghost src = sbytes(source);
    let ghost start = callee_view(out@);
    if is_method_like(language, node.kind.as_str()) {
        let name = match field_child_exec(node, "name") {
            Some(n) => node_text_exec(n, source),
            None => None,
        };
        match name {
            Some(t) => {
                out.push(Callee { name: t.to_string(), node, source });
                assert(callee_view(out@) =~= start + seq![(t@, *node)]);
            },
            None => {
                assert(callee_view(out@) =~= start + Seq::<(Seq<char>, SyntaxNode)>::empty());
            },
        }
        return;
    }
    let ghost base = out@;
    let mut k: usize = 0;
    proof {
        assert(node.children@.subrange(0, 0) =~= Seq::<SyntaxNode>::empty());
        assert(callee_view(out@) =~= start + children_method_defs(Seq::<SyntaxNode>::empty(), src, language));
    }
    while k < node.children.len()
        invariant
            k <= node.children@.len(),
            positions_fit(*node),
            src == sbytes(source),
            base == old(out)@,
            start == callee_view(base),
            callee_view(out@) == start + children_method_defs(node.children@.subrange(0, k as int), src, language),
            forall|i: int| 0 <= i < out@.len() ==> (positions_fit(*(#[trigger] out@[i]).node) || i < base.len()),
            forall|i: int| 0 <= i < base.len() ==> #[trigger] out@[i] == base[i],
            forall|i: int| 0 <= i < out@.len() ==> (#[trigger] out@[i]).source == source || i < base.len(),
        decreases node.children@.len() - k,
    {
        proof {
            lemma_children_fit(node.children@, k as int);
            let sub = node.children@.subrange(0, k + 1);
            assert(sub.drop_last() =~= node.children@.subrange(0, k as int));
            assert(sub.last() == node.children@[k as int]);
        }
        let ghost before = out@;
        collect_methods(&node.children[k], source, language, out);
        k = k + 1;
        proof {
            assert(callee_view(out@) =~= start + children_method_defs(node.children@.subrange(0, k as int), src, language));
            assert forall|i: int| 0 <= i < base.len() implies #[trigger] out@[i] == base[i] by {
                assert(out@[i] == before[i]);
            }
        }
    }
    proof {
        assert(node.children@.subrange(0, node.children@.len() as int) =~= node.children@);
    }
}

/// `g`'s span lies inside `f`'s and differs from it.
pub open spec fn strictly_inside(g: TaintFinding, f: TaintFinding) -> bool {
    g.start_byte >= f.start_byte && g.end_byte <= f.end_byte && (g.start_byte != f.start_byte || g.end_byte
        != f.end_byte)
}

/// Some finding of `all` lies strictly inside `f`.
pub open spec fn encloses_another(all: Seq<TaintFinding>, f: TaintFinding) -> bool {
    exists|j: int| 0 <= j < all.len() && strictly_inside(#[trigger] all[j], f)
}

/// The findings of `upto` that enclose no other finding of `all`, in order.
pub open spec fn innermost_of(all: Seq<TaintFinding>, upto: Seq<TaintFinding>) -> Seq<TaintFinding>
    decreases upto.len(),
{
    if upto.len() == 0 {
        Seq::empty()
    } else {
        let prev = innermost_of(all, upto.drop_last());
        if encloses_another(all, upto.last()) {
            prev
        } else {
            prev.push(upto.last())
        }
    }
}

fn encloses_exec(all: &Vec<TaintFinding>, f: &TaintFinding) -> (r: bool)
    ensures
        r == encloses_another(all@, *f),
{
    let mut j: usize = 0;
    while j < all.len()
        invariant
            j <= all@.len(),
            forall|m: int| 0 <= m < j ==> !strictly_inside(#[trigger] all@[m], *f),
        decreases all@.len() - j,
    {
        let g = &all[j];
        if g.start_byte >= f.start_byte && g.end_byte <= f.end_byte && (g.start_byte != f.start_byte
            || g.end_byte != f.end_byte) {
            assert(strictly_inside(all@[j as int], *f));
            return true;
        }
        j = j + 1;
    }
    false
}

/// Keeps only the innermost of nested findings: a sink call nested inside
/// another matching call is reported once, at the inner call.
pub fn keep_innermost(all: Vec<TaintFinding>) -> (r: Vec<TaintFinding>)
    ensures
        r@ == innermost_of(all@, all@),
{
    let ghost orig = all@;
    let mut keep: Vec<bool> = Vec::new();
    let mut i: usize = 0;
    while i < all.len()
        invariant
            i <= all@.len(),
            all@ == orig,
            keep@.len() == i,
            forall|m: int| 0 <= m < i ==> keep@[m] == !encloses_another(orig, #[trigger] orig[m]),
        decreases all@.len() - i,
    {
        let k = !encloses_exec(&all, &all[i]);
        keep.push(k);
        i = i + 1;
    }
    let mut rest = all;
    let mut out: Vec<TaintFinding> = Vec::new();
    let mut i: usize = 0;
    proof {
        assert(orig.subrange(0, 0) =~= Seq::<TaintFinding>::empty());
        assert(orig.subrange(0, orig.len() as int) =~= orig);
    }
    while rest.len() > 0
        invariant
            i <= orig.len(),
            keep@.len() == orig.len(),
            forall|m: int| 0 <= m < orig.len() ==> keep@[m] == !encloses_another(orig, #[trigger] orig[m]),
            rest@ == orig.subrange(i as int, orig.len() as int),
            out@ == innermost_of(orig, orig.subrange(0, i as int)),
            orig.len() <= usize::MAX,
        decreases rest@.len(),
    {
        assert(i < orig.len());
        let f = rest.remove(0);
        proof {
            let sub = orig.subrange(0, i + 1);
            assert(sub.drop_last() =~= orig.subrange(0, i as int));
            assert(sub.last() == orig[i as int]);
        }
        if keep[i] {
            out.push(f);
        }
        i = i + 1;
        assert(rest@ =~= orig.subrange(i as int, orig.len() as int));
    }
    assert(orig.subrange(0, orig.len() as int) =~= orig);
    out
}

proof fn lemma_innermost_members(all: Seq<TaintFinding>, upto: Seq<TaintFinding>)
    ensures
        forall|k: int| 0 <= k < innermost_of(all, upto).len() ==> upto.contains(#[trigger] innermost_of(all, upto)[k]) && !encloses_another(all, innermost_of(all, upto)[k]),
    decreases upto.len(),
{
    if upto.len() > 0 {
        lemma_innermost_members(all, upto.drop_last());
        let prev = innermost_of(all, upto.drop_last());
        assert forall|k: int| 0 <= k < innermost_of(all, upto).len() implies upto.contains(#[trigger] innermost_of(all, upto)[k]) && !encloses_another(all, innermost_of(all, upto)[k]) by {
            if k < prev.len() {
                let x = prev[k];
                assert(upto.drop_last().contains(x));
                let j = upto.drop_last().index_of(x);
                assert(upto[j] == x);
            } else {
                assert(upto[upto.len() - 1] == upto.last());
            }
        }
    }
}

/// No reported finding encloses another reported finding.
pub proof fn lemma_innermost_has_no_nesting(all: Seq<TaintFinding>)
    ensures
        forall|a: int, b: int|
            0 <= a < innermost_of(all, all).len() && 0 <= b < innermost_of(all, all).len() ==> !strictly_inside(
                #[trigger] innermost_of(all, all)[b],
                #[trigger] innermost_of(all, all)[a],
            ),
{
    let r = innermost_of(all, all);
    lemma_innermost_members(all, all);
    assert forall|a: int, b: int| 0 <= a < r.len() && 0 <= b < r.len() implies !strictly_inside(
        #[trigger] r[b],
        #[trigger] r[a],
    ) by {
        assert(all.contains(r[b]));
        let j = all.index_of(r[b]);
        assert(all[j] == r[b]);
        assert(!encloses_another(all, r[a]));
    }
}

/// Some finding of `r` lies within `m`'s span.
pub open spec fn reported_within(r: Seq<TaintFinding>, m: SyntaxNode) -> bool {
    exists|i: int| 0 <= i < r.len() && (#[trigger] r[i]).start_byte >= m.start_byte && r[i].end_byte <= m.end_byte
}

/// Every exposed sink call the walk meets from `root` is reported, at its
/// own span or at a call inside it.
pub open spec fn complete_findings(
    language: Language,
    root: SyntaxNode,
    src: Seq<u8>,
    config: TaintConfig,
    r: Seq<TaintFinding>,
) -> bool {
    forall|m: SyntaxNode| #[trigger] walk_visits(root, m) && exposed_sink(language, m, src, config) ==> reported_within(r, m)
}

proof fn lemma_innermost_keeps(all: Seq<TaintFinding>, upto: Seq<TaintFinding>, x: TaintFinding)
    requires
        upto.contains(x),
        !encloses_another(all, x),
    ensures
        innermost_of(all, upto).contains(x),
    decreases upto.len(),
{
    if upto.last() == x {
        let r = innermost_of(all, upto);
        assert(r[r.len() - 1] == x);
    } else {
        let j = upto.index_of(x);
        assert(upto.drop_last()[j] == x);
        lemma_innermost_keeps(all, upto.drop_last(), x);
        let prev = innermost_of(all, upto.drop_last());
        let k = prev.index_of(x);
        assert(innermost_of(all, upto)[k] == x);
    }
}

/// Every finding has a kept finding within its span.
proof fn lemma_innermost_within(all: Seq<TaintFinding>, f: TaintFinding)
    requires
        all.contains(f),
    ensures
        exists|i: int|
            0 <= i < innermost_of(all, all).len() && (#[trigger] innermost_of(all, all)[i]).start_byte >= f.start_byte
                && innermost_of(all, all)[i].end_byte <= f.end_byte,
    decreases f.end_byte - f.start_byte + usize::MAX,
{
    let r = innermost_of(all, all);
    if encloses_another(all, f) {
        let j = choose|j: int| 0 <= j < all.len() && strictly_inside(#[trigger] all[j], f);
        let g = all[j];
        lemma_innermost_within(all, g);
        let i = choose|i: int| 0 <= i < r.len() && (#[trigger] r[i]).start_byte >= g.start_byte && r[i].end_byte <= g.end_byte;
        assert(r[i].start_byte >= f.start_byte && r[i].end_byte <= f.end_byte);
    } else {
        lemma_innermost_keeps(all, all, f);
        let i = r.index_of(f);
        assert(r[i] == f);
    }
}

/// Taint flows through statements to the sinks: for every node the walk
/// meets whose statements it walks in order (all but `if` statements), a
/// sink call inside statement `k` is reported (at its span or at a call
/// inside it) when it mentions a variable that the statements before it
/// surely taint (a declaration or assignment whose value calls no
/// sanitizer and holds a source or a surely tainted variable) and that
/// statement `k` does not reassign.
pub open spec fn flow_complete(
    language: Language,
    root: SyntaxNode,
    src: Seq<u8>,
    config: TaintConfig,
    r: Seq<TaintFinding>,
) -> bool {
    forall|n2: SyntaxNode, k: int, m: SyntaxNode|
        #[trigger] walk_visits(root, n2) && n2.kind@ != "if_statement"@ && 0 <= k < n2.children@.len()
            && #[trigger] walk_visits(n2.children@[k], m) && sink_call_tainted_by(
            language,
            config,
            m,
            src,
            block_taint(language, config, n2.children@.subrange(0, k), src, Set::empty()).filter(
                |v: Seq<char>| !assigns(language, n2.children@[k], src, v),
            ),
        ) ==> reported_within(r, m)
}

/// With no sources configured, nothing is surely tainted.
proof fn lemma_block_without_sources(language: Language, config: TaintConfig, cs: Seq<SyntaxNode>, src: Seq<u8>)
    requires
        config.sources@.len() == 0,
    ensures
        block_taint(language, config, cs, src, Set::empty()) == Set::<Seq<char>>::empty(),
    decreases cs.len(),
{
    if cs.len() > 0 {
        lemma_block_without_sources(language, config, cs.drop_last(), src);
        let e = Set::<Seq<char>>::empty();
        assert(e.filter(|v: Seq<char>| !assigns(language, cs.last(), src, v)) =~= e);
        assert(taints_target(language, config, cs.last(), src, e) is None);
    }
}

/// What `analyze` promises of the findings it returns.
pub open spec fn sound_findings(config: TaintConfig, r: Seq<TaintFinding>) -> bool {
    &&& (config.sources@.len() == 0 || config.sinks@.len() == 0) ==> r.len() == 0
    &&& all_report_sinks(config, r)
    &&& forall|a: int, b: int| 0 <= a < r.len() && 0 <= b < r.len() ==> !strictly_inside(#[trigger] r[b], #[trigger] r[a])
}

/// The functions the walk of `root` may enter, as (name, declaration,
/// source): those `root` declares, then, with a code graph, those resolved
/// from the calls of the file at `path` and every symbol's declaration.
pub open spec fn walk_defs(
    root: SyntaxNode,
    source: Seq<char>,
    language: Language,
    graph: Option<CodeGraph>,
    path: Option<Seq<char>>,
) -> Seq<(Seq<char>, SyntaxNode, Seq<char>)> {
    let own = method_defs(root, vstd::utf8::encode_utf8(source), language).map_values(
        |d: (Seq<char>, SyntaxNode)| (d.0, d.1, source),
    );
    match graph {
        None => own,
        Some(g) => own + match path {
            Some(p) => match file_at_path(g.files@, p, g.files@.len() as int) {
                Some(fi) => resolved_callee_state(g.symbols@, g.files@, g.edges@, fi).1,
                None => Seq::empty(),
            },
            None => Seq::empty(),
        } + named_callees(g.symbols@, g.files@),
    }
}

/// A finding the taint walk of `root` may make: one `may_reports` allows
/// from a state with nothing tainted, the functions of `defs` being those
/// it may enter, or one at a node of one of those functions whose text
/// names a sink.
pub open spec fn tainted_report(
    language: Language,
    config: TaintConfig,
    root: SyntaxNode,
    src: Seq<u8>,
    defs: Seq<(Seq<char>, SyntaxNode, Seq<char>)>,
    f: TaintFinding,
) -> bool {
    ||| may_reports(
        language,
        config,
        defs.map_values(|d: (Seq<char>, SyntaxNode, Seq<char>)| d.0).to_set(),
        root,
        src,
        (Set::empty(), Set::empty()),
        f,
    )
    ||| exists|i: int| 0 <= i < defs.len() && site_in(#[trigger] defs[i].1, vstd::utf8::encode_utf8(defs[i].2), config, f)
}

/// Runs the taint walk over a syntax tree of `language`. Returns the
/// findings in source order; every finding names a configured sink, none
/// encloses another, and every call the walk meets whose text names a sink
/// and contains a source is reported, at its span or at a call inside it.
pub fn analyze(tree: &SyntaxTree, source: &str, config: &TaintConfig, language: Language) -> (r: Vec<TaintFinding>)
    requires
        positions_fit(tree.root),
    ensures
        sound_findings(*config, r@),
        complete_findings(language, tree.root, sbytes(source), *config, r@),
        flow_complete(language, tree.root, sbytes(source), *config, r@),
        forall|k: int|
            0 <= k < r@.len() ==> tainted_report(
                language,
                *config,
                tree.root,
                sbytes(source),
                walk_defs(tree.root, source@, language, None, None),
                #[trigger] r@[k],
            ),
{
    analyze_with_graph(tree, source, config, language, None, None)
}

/// What a list of callees says, with the source each lives in.
pub open spec fn callee_entries<'a>(cs: Seq<Callee<'a>>) -> Seq<(Seq<char>, SyntaxNode, Seq<char>)> {
    cs.map_values(|c: Callee<'a>| (c.name@, *c.node, c.source@))
}

/// (name, declaration, source) of every symbol whose declaration is found
/// at its line, in symbol order.
pub open spec fn named_callees(symbols: Seq<GraphSymbol>, files: Seq<IndexedFile>) -> Seq<(Seq<char>, SyntaxNode, Seq<char>)>
    decreases symbols.len(),
{
    if symbols.len() == 0 {
        Seq::empty()
    } else {
        let prev = named_callees(symbols.drop_last(), files);
        let sym = symbols.last();
        let f = files[sym.file_index as int];
        match method_on_line(f.tree.root, sym.line, f.language) {
            Some(n) => prev.push((sym.name@, n, f.source@)),
            None => prev,
        }
    }
}

/// The function-like node of `f` holding `byte`, when `byte` lies in the
/// file's root span.
pub open spec fn method_at(f: IndexedFile, byte: usize) -> Option<SyntaxNode> {
    if f.tree.root.start_byte <= byte < f.tree.root.end_byte {
        method_holding(f.tree.root, byte, f.language)
    } else {
        None
    }
}

/// Walking `edges` for calls made from file `fi`: the (name, file,
/// declaration byte) keys seen so far, and (name, declaration, source) of
/// each first-seen resolved callee whose declaration was found.
pub open spec fn resolved_callee_state(
    symbols: Seq<GraphSymbol>,
    files: Seq<IndexedFile>,
    edges: Seq<CallEdge>,
    fi: usize,
) -> (Seq<(Seq<char>, usize, usize)>, Seq<(Seq<char>, SyntaxNode, Seq<char>)>)
    decreases edges.len(),
{
    if edges.len() == 0 {
        (Seq::empty(), Seq::empty())
    } else {
        let prev = resolved_callee_state(symbols, files, edges.drop_last(), fi);
        let e = edges.last();
        if symbols[e.caller as int].file_index == fi && e.callee is Some {
            let sym = symbols[e.callee->0 as int];
            let name = after_last_dot(e.callee_text@);
            let key = (name, sym.file_index, sym.start_byte);
            if prev.0.contains(key) {
                prev
            } else {
                let f = files[sym.file_index as int];
                (
                    prev.0.push(key),
                    match method_at(f, sym.start_byte) {
                        Some(n) => prev.1.push((name, n, f.source@)),
                        None => prev.1,
                    },
                )
            }
        } else {
            prev
        }
    }
}

/// The keys of a seen-list.
pub open spec fn seen_keys(v: Seq<(String, usize, usize)>) -> Seq<(Seq<char>, usize, usize)> {
    v.map_values(|t: (String, usize, usize)| (t.0@, t.1, t.2))
}

/// Adds, for every call in the file at `path` that the graph resolved, the
/// callee's declaration under the call's last name segment (each
/// declaration once per name), in edge order.
fn add_resolved_callees<'a>(graph: &'a CodeGraph, path: &str, out: &mut Vec<Callee<'a>>)
    requires
        graph.wf(),
    ensures
        forall|i: int| 0 <= i < final(out)@.len() ==> (positions_fit(*(#[trigger] final(out)@[i]).node) || i < old(out)@.len()),
        forall|i: int| 0 <= i < old(out)@.len() ==> #[trigger] final(out)@[i] == old(out)@[i],
        callee_entries(final(out)@) == callee_entries(old(out)@) + match file_at_path(
            graph.files@,
            path@,
            graph.files@.len() as int,
        ) {
            Some(fi) => resolved_callee_state(graph.symbols@, graph.files@, graph.edges@, fi).1,
            None => Seq::empty(),
        },
{
    let ghost e0 = callee_entries(out@);
    let mut file_index: Option<usize> = None;
    let mut i: usize = 0;
    while i < graph.files.len()
        invariant
            i <= graph.files@.len(),
            file_index matches Some(f) ==> f < graph.files@.len(),
            file_index == file_at_path(graph.files@, path@, i as int),
        decreases graph.files@.len() - i,
    {
        if crate::paths::same_path(graph.files[i].path.as_str(), path) {
            file_index = Some(i);
        }
        i = i + 1;
    }
    let fi = match file_index {
        Some(f) => f,
        None => {
            assert(callee_entries(out@) =~= e0 + Seq::<(Seq<char>, SyntaxNode, Seq<char>)>::empty());
            return;
        },
    };
    let ghost base = out@;
    let mut seen: Vec<(String, usize, usize)> = Vec::new();
    let mut e: usize = 0;
    proof {
        assert(graph.edges@.subrange(0, 0) =~= Seq::<CallEdge>::empty());
        assert(callee_entries(out@) =~= e0 + Seq::<(Seq<char>, SyntaxNode, Seq<char>)>::empty());
        assert(seen_keys(seen@) =~= Seq::<(Seq<char>, usize, usize)>::empty());
    }
    while e < graph.edges.len()
        invariant
            e <= graph.edges@.len(),
            graph.wf(),
            base.len() <= out@.len(),
            forall|i: int| 0 <= i < out@.len() ==> (positions_fit(*(#[trigger] out@[i]).node) || i < base.len()),
            forall|i: int| 0 <= i < base.len() ==> #[trigger] out@[i] == base[i],
            e0 == callee_entries(base),
            seen_keys(seen@) == resolved_callee_state(graph.symbols@, graph.files@, graph.edges@.subrange(0, e as int), fi).0,
            callee_entries(out@) == e0 + resolved_callee_state(graph.symbols@, graph.files@, graph.edges@.subrange(0, e as int), fi).1,
        decreases graph.edges@.len() - e,
    {
        proof {
            let sub = graph.edges@.subrange(0, e + 1);
            assert(sub.drop_last() =~= graph.edges@.subrange(0, e as int));
            assert(sub.last() == graph.edges@[e as int]);
        }
        let ghost keys0 = seen_keys(seen@);
        let ghost ents0 = callee_entries(out@);
        let edge = &graph.edges[e];
        assert(edge.caller < graph.symbols@.len());
        if graph.symbols[edge.caller].file_index == fi {
            match edge.callee {
                Some(c) => {
                    let name = crate::code_graph::last_segment(edge.callee_text.as_str());
                    let symbol = &graph.symbols[c];
                    assert(crate::code_graph::symbol_in_files(graph.symbols@[c as int], graph.files@));
                    let ghost key = (name@, symbol.file_index, symbol.start_byte);
                    let mut dup = false;
                    let mut k: usize = 0;
                    while k < seen.len()
                        invariant
                            k <= seen@.len(),
                            dup == seen_keys(seen@).subrange(0, k as int).contains(key),
                            key == (name@, symbol.file_index, symbol.start_byte),
                        decreases seen@.len() - k,
                    {
                        proof {
                            let ks = seen_keys(seen@);
                            let sub = ks.subrange(0, k + 1);
                            assert(sub =~= ks.subrange(0, k as int).push(ks[k as int]));
                            if ks.subrange(0, k as int).contains(key) {
                                let j = ks.subrange(0, k as int).index_of(key);
                                assert(sub[j] == key);
                            }
                            if ks[k as int] == key {
                                assert(sub[k as int] == key);
                            }
                            if sub.contains(key) && ks[k as int] != key {
                                let j = sub.index_of(key);
                                assert(ks.subrange(0, k as int)[j] == key);
                            }
                        }
                        if str_eq(seen[k].0.as_str(), name.as_str()) && seen[k].1 == symbol.file_index && seen[k].2
                            == symbol.start_byte {
                            dup = true;
                        }
                        k = k + 1;
                    }
                    proof {
                        assert(seen_keys(seen@).subrange(0, seen@.len() as int) =~= seen_keys(seen@));
                    }
                    if !dup {
                        let n2 = name.clone();
                        seen.push((n2, symbol.file_index, symbol.start_byte));
                        assert(seen_keys(seen@) =~= keys0.push(key));
                        let file = &graph.files[symbol.file_index];
                        match file.method_node_at_byte(symbol.start_byte) {
                            Some(node) => {
                                out.push(Callee { name, node, source: file.source.as_str() });
                                assert(callee_entries(out@) =~= ents0.push((key.0, *node, file.source@)));
                            },
                            None => {},
                        }
                    }
                },
                None => {},
            }
        }
        e = e + 1;
        proof {
            assert(callee_entries(out@) =~= e0 + resolved_callee_state(graph.symbols@, graph.files@, graph.edges@.subrange(0, e as int), fi).1);
        }
    }
    proof {
        assert(graph.edges@.subrange(0, graph.edges@.len() as int) =~= graph.edges@);
    }
}

/// Adds every symbol's declaration under its name, in symbol order.
fn add_named_callees<'a>(graph: &'a CodeGraph, out: &mut Vec<Callee<'a>>)
    requires
        graph.wf(),
    ensures
        forall|i: int| 0 <= i < final(out)@.len() ==> (positions_fit(*(#[trigger] final(out)@[i]).node) || i < old(out)@.len()),
        forall|i: int| 0 <= i < old(out)@.len() ==> #[trigger] final(out)@[i] == old(out)@[i],
        callee_entries(final(out)@) == callee_entries(old(out)@) + named_callees(graph.symbols@, graph.files@),
{
    let ghost base = out@;
    let mut i: usize = 0;
    proof {
        assert(graph.symbols@.subrange(0, 0) =~= Seq::<GraphSymbol>::empty());
        assert(callee_entries(out@) =~= callee_entries(base) + Seq::<(Seq<char>, SyntaxNode, Seq<char>)>::empty());
    }
    while i < graph.symbols.len()
        invariant
            i <= graph.symbols@.len(),
            graph.wf(),
            base.len() <= out@.len(),
            forall|i: int| 0 <= i < out@.len() ==> (positions_fit(*(#[trigger] out@[i]).node) || i < base.len()),
            forall|i: int| 0 <= i < base.len() ==> #[trigger] out@[i] == base[i],
            callee_entries(out@) == callee_entries(base) + named_callees(graph.symbols@.subrange(0, i as int), graph.files@),
        decreases graph.symbols@.len() - i,
    {
        proof {
            let sub = graph.symbols@.subrange(0, i + 1);
            assert(sub.drop_last() =~= graph.symbols@.subrange(0, i as int));
            assert(sub.last() == graph.symbols@[i as int]);
        }
        let symbol = &graph.symbols[i];
        assert(crate::code_graph::symbol_in_files(graph.symbols@[i as int], graph.files@));
        let file = &graph.files[symbol.file_index];
        let ghost before = callee_entries(out@);
        match file.method_node_at(symbol.line) {
            Some(node) => {
                let name = symbol.name.clone();
                out.push(Callee { name, node, source: file.source.as_str() });
                assert(callee_entries(out@) =~= before.push((symbol.name@, *node, file.source@)));
            },
            None => {},
        }
        i = i + 1;
        proof {
            assert(callee_entries(out@) =~= callee_entries(base) + named_callees(graph.symbols@.subrange(0, i as int), graph.files@));
        }
    }
    proof {
        assert(graph.symbols@.subrange(0, graph.symbols@.len() as int) =~= graph.symbols@);
    }
}

/// `analyze`, with callees resolved across the project through the code
/// graph: first the functions of this file, then the declarations the
/// graph resolved for calls in the file at `path`, then every declaration
/// of the called name.
pub fn analyze_with_graph<'a>(
    tree: &'a SyntaxTree,
    source: &'a str,
    config: &'a TaintConfig,
    language: Language,
    graph: Option<&'a CodeGraph>,
    path: Option<&str>,
) -> (r: Vec<TaintFinding>)
    requires
        positions_fit(tree.root),
        graph matches Some(g) ==> g.wf(),
    ensures
        sound_findings(*config, r@),
        complete_findings(language, tree.root, sbytes(source), *config, r@),
        flow_complete(language, tree.root, sbytes(source), *config, r@),
        forall|k: int|
            0 <= k < r@.len() ==> tainted_report(
                language,
                *config,
                tree.root,
                sbytes(source),
                walk_defs(
                    tree.root,
                    source@,
                    language,
                    match graph {
                        Some(g) => Some(*g),
                        None => None,
                    },
                    match path {
                        Some(p) => Some(p@),
                        None => None,
                    },
                ),
                #[trigger] r@[k],
            ),
{
    if config.sources.len() == 0 || config.sinks.len() == 0 {
        proof {
            assert forall|n2: SyntaxNode, k: int, m: SyntaxNode|
                #[trigger] walk_visits(tree.root, n2) && n2.kind@ != "if_statement"@ && 0 <= k < n2.children@.len()
                    && #[trigger] walk_visits(n2.children@[k], m) implies !sink_call_tainted_by(
                    language,
                    *config,
                    m,
                    sbytes(source),
                    block_taint(language, *config, n2.children@.subrange(0, k), sbytes(source), Set::empty()).filter(
                        |v: Seq<char>| !assigns(language, n2.children@[k], sbytes(source), v),
                    ),
                ) by {
                if config.sources@.len() == 0 {
                    lemma_block_without_sources(language, *config, n2.children@.subrange(0, k), sbytes(source));
                    let b = block_taint(language, *config, n2.children@.subrange(0, k), sbytes(source), Set::empty());
                    assert(b.filter(|v: Seq<char>| !assigns(language, n2.children@[k], sbytes(source), v)) =~= Set::<Seq<char>>::empty());
                }
            }
        }
        return Vec::new();
    }
    let mut callees: Vec<Callee<'a>> = Vec::new();
    collect_methods(&tree.root, source, language, &mut callees);
    match graph {
        Some(g) => {
            match path {
                Some(p) => add_resolved_callees(g, p, &mut callees),
                None => {},
            }
            add_named_callees(g, &mut callees);
        },
        None => {},
    }
    let ghost defs = walk_defs(
        tree.root,
        source@,
        language,
        match graph {
            Some(g) => Some(*g),
            None => None,
        },
        match path {
            Some(p) => Some(p@),
            None => None,
        },
    );
    proof {
        assert(callee_entries(callees@) =~= defs);
    }
    let engine = Engine { config, language, source, callees };
    let mut flow = Flow { tainted: VarSet::new(), touched: VarSet::new(), findings: Vec::new() };
    let ghost e0 = flow.tainted@;
    let ghost u0 = flow.touched@;
    engine.walk(&mut flow, &tree.root);
    let all = flow.findings;
    let ghost fs = all@;
    let r = keep_innermost(all);
    proof {
        let names = engine.names();
        let st = (Set::<Seq<char>>::empty(), Set::<Seq<char>>::empty());
        assert(e0 =~= st.0 && u0 =~= st.1);
        let w = may_walk(language, *config, names, tree.root, sbytes(source), st);
        assert(defs.map_values(|d: (Seq<char>, SyntaxNode, Seq<char>)| d.0) =~= engine.callees@.map_values(|c: Callee<'a>| c.name@));
        lemma_innermost_members(fs, fs);
        assert forall|k: int| 0 <= k < r@.len() implies tainted_report(language, *config, tree.root, sbytes(source), defs, #[trigger] r@[k]) by {
            let f = r@[k];
            assert(fs.contains(f));
            let j = fs.index_of(f);
            assert(fs[j] == f);
            assert(engine.callee_report(fs[j]) || may_reports(language, *config, names, tree.root, sbytes(source), st, fs[j]));
            assert(names == defs.map_values(|d: (Seq<char>, SyntaxNode, Seq<char>)| d.0).to_set());
            if engine.callee_report(f) {
                let c = choose|c: int| 0 <= c < engine.callees@.len() && site_in(
                    *(#[trigger] engine.callees@[c]).node,
                    sbytes(engine.callees@[c].source),
                    *config,
                    f,
                );
                assert(defs[c] == (engine.callees@[c].name@, *engine.callees@[c].node, engine.callees@[c].source@));
                assert(sbytes(engine.callees@[c].source) == vstd::utf8::encode_utf8(engine.callees@[c].source@));
                assert(site_in(defs[c].1, vstd::utf8::encode_utf8(defs[c].2), *config, f));
            }
        }
    }
    proof {
        assert forall|n2: SyntaxNode, k: int, m: SyntaxNode|
            #[trigger] walk_visits(tree.root, n2) && n2.kind@ != "if_statement"@ && 0 <= k < n2.children@.len()
                && #[trigger] walk_visits(n2.children@[k], m) && sink_call_tainted_by(
                language,
                *config,
                m,
                sbytes(source),
                block_taint(language, *config, n2.children@.subrange(0, k), sbytes(source), Set::empty()).filter(
                    |v: Seq<char>| !assigns(language, n2.children@[k], sbytes(source), v),
                ),
            ) implies reported_within(r@, m) by {
            assert(flows_found(language, *config, sbytes(source), fs, n2));
            let i = choose|i: int| 0 <= i < fs.len() && (#[trigger] fs[i]).start_byte == m.start_byte && fs[i].end_byte == m.end_byte;
            assert(fs.contains(fs[i]));
            lemma_innermost_within(fs, fs[i]);
        }
        assert forall|m: SyntaxNode| #[trigger] walk_visits(tree.root, m) && exposed_sink(language, m, sbytes(source), *config) implies reported_within(r@, m) by {
            let i = choose|i: int| 0 <= i < fs.len() && (#[trigger] fs[i]).start_byte == m.start_byte && fs[i].end_byte == m.end_byte;
            assert(fs.contains(fs[i]));
            lemma_innermost_within(fs, fs[i]);
        }
        lemma_innermost_members(fs, fs);
        lemma_innermost_has_no_nesting(fs);
        assert forall|i: int| 0 <= i < r@.len() implies reports_sink(*config, #[trigger] r@[i]) by {
            assert(fs.contains(r@[i]));
            let j = fs.index_of(r@[i]);
            assert(fs[j] == r@[i]);
        }
    }
    r
}

/// `analyze` on a Java syntax tree.
pub fn analyze_java(tree: &SyntaxTree, source: &str, config: &TaintConfig) -> (r: Vec<TaintFinding>)
    requires
        positions_fit(tree.root),
    ensures
        sound_findings(*config, r@),
        complete_findings(Language::Java, tree.root, sbytes(source), *config, r@),
        flow_complete(Language::Java, tree.root, sbytes(source), *config, r@),
        forall|k: int|
            0 <= k < r@.len() ==> tainted_report(
                Language::Java,
                *config,
                tree.root,
                sbytes(source),
                walk_defs(tree.root, source@, Language::Java, None, None),
                #[trigger] r@[k],
            ),
{
    analyze(tree, source, config, Language::Java)
}

/// Each grammar's assignment node assigns its right side to its left side:
/// `assignment_expression` in Java, JavaScript and TypeScript, `assignment`
/// in Python, and both `assignment_statement` (`x = e`) and
/// `short_var_declaration` (`x := e`) in Go. When the right side calls no
/// sanitizer and contains a source or a tainted variable, the walk may leave
/// the target tainted after the statement, and surely does unless a part of
/// the statement reassigns the target itself.
pub proof fn lemma_assignments_taint_their_target(
    language: Language,
    config: TaintConfig,
    calls: Set<Seq<char>>,
    n: SyntaxNode,
    src: Seq<u8>,
    st: (Set<Seq<char>>, Set<Seq<char>>),
    target: Seq<char>,
    value: Seq<char>,
)
    requires
        (language == Language::Go && (n.kind@ == "short_var_declaration"@ || n.kind@ == "assignment_statement"@))
            || (language == Language::Python && n.kind@ == "assignment"@) || ((language == Language::Java
            || language == Language::JavaScript || language == Language::TypeScript) && n.kind@
            == "assignment_expression"@),
        assigned_sides(n, src) == Some((target, value)),
        !mentions(value, config.sanitizers@),
        mentions(value, config.sources@) || taints_text(value, st.0),
    ensures
        target_of(language, n, src) == Some(target),
        taints_target(language, config, n, src, st.0) == Some(target),
        may_step(language, config, calls, n, src, st).0.contains(target),
        may_step(language, config, calls, n, src, st).1.contains(target),
        !children_assign(language, n, src, target) ==> step(language, config, n, src, st.0).contains(target),
{
    reveal_strlit("arrow_function");
    reveal_strlit("assignment");
    reveal_strlit("assignment_expression");
    reveal_strlit("assignment_statement");
    reveal_strlit("constructor_declaration");
    reveal_strlit("do_statement");
    reveal_strlit("enhanced_for_statement");
    reveal_strlit("for_in_statement");
    reveal_strlit("for_statement");
    reveal_strlit("function_declaration");
    reveal_strlit("function_definition");
    reveal_strlit("function_expression");
    reveal_strlit("if_statement");
    reveal_strlit("lexical_declaration");
    reveal_strlit("local_variable_declaration");
    reveal_strlit("method_declaration");
    reveal_strlit("method_definition");
    reveal_strlit("short_var_declaration");
    reveal_strlit("var_spec");
    reveal_strlit("variable_declaration");
    reveal_strlit("while_statement");
    let k = n.kind@;
    assert(k != "method_declaration"@) by {
        assert((k == "assignment_expression"@ ==> k[0] != "method_declaration"@[0]) && (k == "assignment"@ ==> k[0] != "method_declaration"@[0]) && (k == "short_var_declaration"@ ==> k[0] != "method_declaration"@[0]) && (k == "assignment_statement"@ ==> k[0] != "method_declaration"@[0]));
    }
    assert(k != "constructor_declaration"@) by {
        assert((k == "assignment_expression"@ ==> k[0] != "constructor_declaration"@[0]) && (k == "assignment"@ ==> k[0] != "constructor_declaration"@[0]) && (k == "short_var_declaration"@ ==> k[0] != "constructor_declaration"@[0]) && (k == "assignment_statement"@ ==> k[0] != "constructor_declaration"@[0]));
    }
    assert(k != "function_declaration"@) by {
        assert((k == "assignment_expression"@ ==> k[0] != "function_declaration"@[0]) && (k == "assignment"@ ==> k[0] != "function_declaration"@[0]) && (k == "short_var_declaration"@ ==> k[0] != "function_declaration"@[0]) && (k == "assignment_statement"@ ==> k[0] != "function_declaration"@[0]));
    }
    assert(k != "function_expression"@) by {
        assert((k == "assignment_expression"@ ==> k[0] != "function_expression"@[0]) && (k == "assignment"@ ==> k[0] != "function_expression"@[0]) && (k == "short_var_declaration"@ ==> k[0] != "function_expression"@[0]) && (k == "assignment_statement"@ ==> k[0] != "function_expression"@[0]));
    }
    assert(k != "arrow_function"@) by {
        assert((k == "assignment_expression"@ ==> k[1] != "arrow_function"@[1]) && (k == "assignment"@ ==> k[1] != "arrow_function"@[1]) && (k == "short_var_declaration"@ ==> k[0] != "arrow_function"@[0]) && (k == "assignment_statement"@ ==> k[1] != "arrow_function"@[1]));
    }
    assert(k != "method_definition"@) by {
        assert((k == "assignment_expression"@ ==> k[0] != "method_definition"@[0]) && (k == "assignment"@ ==> k[0] != "method_definition"@[0]) && (k == "short_var_declaration"@ ==> k[0] != "method_definition"@[0]) && (k == "assignment_statement"@ ==> k[0] != "method_definition"@[0]));
    }
    assert(k != "function_definition"@) by {
        assert((k == "assignment_expression"@ ==> k[0] != "function_definition"@[0]) && (k == "assignment"@ ==> k[0] != "function_definition"@[0]) && (k == "short_var_declaration"@ ==> k[0] != "function_definition"@[0]) && (k == "assignment_statement"@ ==> k[0] != "function_definition"@[0]));
    }
    assert(k != "if_statement"@) by {
        assert((k == "assignment_expression"@ ==> k[0] != "if_statement"@[0]) && (k == "assignment"@ ==> k[0] != "if_statement"@[0]) && (k == "short_var_declaration"@ ==> k[0] != "if_statement"@[0]) && (k == "assignment_statement"@ ==> k[0] != "if_statement"@[0]));
    }
    assert(k != "while_statement"@) by {
        assert((k == "assignment_expression"@ ==> k[0] != "while_statement"@[0]) && (k == "assignment"@ ==> k[0] != "while_statement"@[0]) && (k == "short_var_declaration"@ ==> k[0] != "while_statement"@[0]) && (k == "assignment_statement"@ ==> k[0] != "while_statement"@[0]));
    }
    assert(k != "do_statement"@) by {
        assert((k == "assignment_expression"@ ==> k[0] != "do_statement"@[0]) && (k == "assignment"@ ==> k[0] != "do_statement"@[0]) && (k == "short_var_declaration"@ ==> k[0] != "do_statement"@[0]) && (k == "assignment_statement"@ ==> k[0] != "do_statement"@[0]));
    }
    assert(k != "for_statement"@) by {
        assert((k == "assignment_expression"@ ==> k[0] != "for_statement"@[0]) && (k == "assignment"@ ==> k[0] != "for_statement"@[0]) && (k == "short_var_declaration"@ ==> k[0] != "for_statement"@[0]) && (k == "assignment_statement"@ ==> k[0] != "for_statement"@[0]));
    }
    assert(k != "enhanced_for_statement"@) by {
        assert((k == "assignment_expression"@ ==> k[0] != "enhanced_for_statement"@[0]) && (k == "assignment"@ ==> k[0] != "enhanced_for_statement"@[0]) && (k == "short_var_declaration"@ ==> k[0] != "enhanced_for_statement"@[0]) && (k == "assignment_statement"@ ==> k[0] != "enhanced_for_statement"@[0]));
    }
    assert(k != "for_in_statement"@) by {
        assert((k == "assignment_expression"@ ==> k[0] != "for_in_statement"@[0]) && (k == "assignment"@ ==> k[0] != "for_in_statement"@[0]) && (k == "short_var_declaration"@ ==> k[0] != "for_in_statement"@[0]) && (k == "assignment_statement"@ ==> k[0] != "for_in_statement"@[0]));
    }
    assert(k != "lexical_declaration"@) by {
        assert((k == "assignment_expression"@ ==> k[0] != "lexical_declaration"@[0]) && (k == "assignment"@ ==> k[0] != "lexical_declaration"@[0]) && (k == "short_var_declaration"@ ==> k[0] != "lexical_declaration"@[0]) && (k == "assignment_statement"@ ==> k[0] != "lexical_declaration"@[0]));
    }
    assert(k != "variable_declaration"@) by {
        assert((k == "assignment_expression"@ ==> k[0] != "variable_declaration"@[0]) && (k == "assignment"@ ==> k[0] != "variable_declaration"@[0]) && (k == "short_var_declaration"@ ==> k[0] != "variable_declaration"@[0]) && (k == "assignment_statement"@ ==> k[0] != "variable_declaration"@[0]));
    }
    assert(k != "var_spec"@) by {
        assert((k == "assignment_expression"@ ==> k[0] != "var_spec"@[0]) && (k == "assignment"@ ==> k[0] != "var_spec"@[0]) && (k == "short_var_declaration"@ ==> k[0] != "var_spec"@[0]) && (k == "assignment_statement"@ ==> k[0] != "var_spec"@[0]));
    }
    assert(k != "local_variable_declaration"@) by {
        assert((k == "assignment_expression"@ ==> k[0] != "local_variable_declaration"@[0]) && (k == "assignment"@ ==> k[0] != "local_variable_declaration"@[0]) && (k == "short_var_declaration"@ ==> k[0] != "local_variable_declaration"@[0]) && (k == "assignment_statement"@ ==> k[0] != "local_variable_declaration"@[0]));
    }
    assert(!spec_declaration(language, k));
    assert(spec_assignment(language, k));
    assert(plain_kind(language, k));
}

/// Each grammar's call node is where a sink is met: `method_invocation` and
/// `object_creation_expression` in Java, `call_expression` in JavaScript,
/// TypeScript and Go, and `call` in Python. Such a node whose text names a
/// sink and mentions a tainted variable is a tainted sink call.
pub proof fn lemma_calls_are_sink_sites(
    language: Language,
    config: TaintConfig,
    m: SyntaxNode,
    src: Seq<u8>,
    s: Set<Seq<char>>,
    text: Seq<char>,
)
    requires
        (language == Language::Java && (m.kind@ == "method_invocation"@ || m.kind@
            == "object_creation_expression"@)) || ((language == Language::JavaScript || language
            == Language::TypeScript || language == Language::Go) && m.kind@ == "call_expression"@) || (language
            == Language::Python && m.kind@ == "call"@),
        node_text(m, src) == Some(text),
        mentions(text, config.sinks@),
        taints_text(text, s),
    ensures
        sink_call_tainted_by(language, config, m, src, s),
{
}

/// Each grammar's local declaration binds its name to its initializer:
/// `local_variable_declaration` in Java, `lexical_declaration` and
/// `variable_declaration` in JavaScript and TypeScript, and `var_spec` in
/// Go. When the initializer calls no sanitizer and contains a source or a
/// tainted variable, the walk may leave the name tainted after the
/// declaration, and surely does unless a part of it reassigns the name.
pub proof fn lemma_declarations_taint_their_name(
    language: Language,
    config: TaintConfig,
    calls: Set<Seq<char>>,
    n: SyntaxNode,
    src: Seq<u8>,
    st: (Set<Seq<char>>, Set<Seq<char>>),
    name: Seq<char>,
    value: Seq<char>,
)
    requires
        (language == Language::Go && n.kind@ == "var_spec"@) || ((language == Language::JavaScript || language
            == Language::TypeScript) && (n.kind@ == "lexical_declaration"@ || n.kind@ == "variable_declaration"@))
            || (language == Language::Java && n.kind@ == "local_variable_declaration"@),
        declared_name(n, src) == Some(name),
        declared_value(n, src) == Some(value),
        !mentions(value, config.sanitizers@),
        mentions(value, config.sources@) || taints_text(value, st.0),
    ensures
        target_of(language, n, src) == Some(name),
        taints_target(language, config, n, src, st.0) == Some(name),
        may_step(language, config, calls, n, src, st).0.contains(name),
        may_step(language, config, calls, n, src, st).1.contains(name),
        !children_assign(language, n, src, name) ==> step(language, config, n, src, st.0).contains(name),
{
    reveal_strlit("arrow_function");
    reveal_strlit("constructor_declaration");
    reveal_strlit("do_statement");
    reveal_strlit("enhanced_for_statement");
    reveal_strlit("for_in_statement");
    reveal_strlit("for_statement");
    reveal_strlit("function_declaration");
    reveal_strlit("function_definition");
    reveal_strlit("function_expression");
    reveal_strlit("if_statement");
    reveal_strlit("lexical_declaration");
    reveal_strlit("local_variable_declaration");
    reveal_strlit("method_declaration");
    reveal_strlit("method_definition");
    reveal_strlit("var_spec");
    reveal_strlit("variable_declaration");
    reveal_strlit("while_statement");
    let k = n.kind@;
    assert(k != "method_declaration"@) by {
        assert((k == "lexical_declaration"@ ==> k[0] != "method_declaration"@[0]) && (k == "variable_declaration"@ ==> k[0] != "method_declaration"@[0]) && (k == "var_spec"@ ==> k[0] != "method_declaration"@[0]) && (k == "local_variable_declaration"@ ==> k[0] != "method_declaration"@[0]));
    }
    assert(k != "constructor_declaration"@) by {
        assert((k == "lexical_declaration"@ ==> k[0] != "constructor_declaration"@[0]) && (k == "variable_declaration"@ ==> k[0] != "constructor_declaration"@[0]) && (k == "var_spec"@ ==> k[0] != "constructor_declaration"@[0]) && (k == "local_variable_declaration"@ ==> k[0] != "constructor_declaration"@[0]));
    }
    assert(k != "function_declaration"@) by {
        assert((k == "lexical_declaration"@ ==> k[0] != "function_declaration"@[0]) && (k == "variable_declaration"@ ==> k[0] != "function_declaration"@[0]) && (k == "var_spec"@ ==> k[0] != "function_declaration"@[0]) && (k == "local_variable_declaration"@ ==> k[0] != "function_declaration"@[0]));
    }
    assert(k != "function_expression"@) by {
        assert((k == "lexical_declaration"@ ==> k[0] != "function_expression"@[0]) && (k == "variable_declaration"@ ==> k[0] != "function_expression"@[0]) && (k == "var_spec"@ ==> k[0] != "function_expression"@[0]) && (k == "local_variable_declaration"@ ==> k[0] != "function_expression"@[0]));
    }
    assert(k != "arrow_function"@) by {
        assert((k == "lexical_declaration"@ ==> k[0] != "arrow_function"@[0]) && (k == "variable_declaration"@ ==> k[0] != "arrow_function"@[0]) && (k == "var_spec"@ ==> k[0] != "arrow_function"@[0]) && (k == "local_variable_declaration"@ ==> k[0] != "arrow_function"@[0]));
    }
    assert(k != "method_definition"@) by {
        assert((k == "lexical_declaration"@ ==> k[0] != "method_definition"@[0]) && (k == "variable_declaration"@ ==> k[0] != "method_definition"@[0]) && (k == "var_spec"@ ==> k[0] != "method_definition"@[0]) && (k == "local_variable_declaration"@ ==> k[0] != "method_definition"@[0]));
    }
    assert(k != "function_definition"@) by {
        assert((k == "lexical_declaration"@ ==> k[0] != "function_definition"@[0]) && (k == "variable_declaration"@ ==> k[0] != "function_definition"@[0]) && (k == "var_spec"@ ==> k[0] != "function_definition"@[0]) && (k == "local_variable_declaration"@ ==> k[0] != "function_definition"@[0]));
    }
    assert(k != "if_statement"@) by {
        assert((k == "lexical_declaration"@ ==> k[0] != "if_statement"@[0]) && (k == "variable_declaration"@ ==> k[0] != "if_statement"@[0]) && (k == "var_spec"@ ==> k[0] != "if_statement"@[0]) && (k == "local_variable_declaration"@ ==> k[0] != "if_statement"@[0]));
    }
    assert(k != "while_statement"@) by {
        assert((k == "lexical_declaration"@ ==> k[0] != "while_statement"@[0]) && (k == "variable_declaration"@ ==> k[0] != "while_statement"@[0]) && (k == "var_spec"@ ==> k[0] != "while_statement"@[0]) && (k == "local_variable_declaration"@ ==> k[0] != "while_statement"@[0]));
    }
    assert(k != "do_statement"@) by {
        assert((k == "lexical_declaration"@ ==> k[0] != "do_statement"@[0]) && (k == "variable_declaration"@ ==> k[0] != "do_statement"@[0]) && (k == "var_spec"@ ==> k[0] != "do_statement"@[0]) && (k == "local_variable_declaration"@ ==> k[0] != "do_statement"@[0]));
    }
    assert(k != "for_statement"@) by {
        assert((k == "lexical_declaration"@ ==> k[0] != "for_statement"@[0]) && (k == "variable_declaration"@ ==> k[0] != "for_statement"@[0]) && (k == "var_spec"@ ==> k[0] != "for_statement"@[0]) && (k == "local_variable_declaration"@ ==> k[0] != "for_statement"@[0]));
    }
    assert(k != "enhanced_for_statement"@) by {
        assert((k == "lexical_declaration"@ ==> k[0] != "enhanced_for_statement"@[0]) && (k == "variable_declaration"@ ==> k[0] != "enhanced_for_statement"@[0]) && (k == "var_spec"@ ==> k[0] != "enhanced_for_statement"@[0]) && (k == "local_variable_declaration"@ ==> k[0] != "enhanced_for_statement"@[0]));
    }
    assert(k != "for_in_statement"@) by {
        assert((k == "lexical_declaration"@ ==> k[0] != "for_in_statement"@[0]) && (k == "variable_declaration"@ ==> k[0] != "for_in_statement"@[0]) && (k == "var_spec"@ ==> k[0] != "for_in_statement"@[0]) && (k == "local_variable_declaration"@ ==> k[0] != "for_in_statement"@[0]));
    }
    assert(spec_declaration(language, k));
    assert(plain_kind(language, k));
}

} // verus!
