//! Built-in rules written directly against the syntax tree.

use vstd::prelude::*;
use vstd::string::*;
use crate::finding::{spec_fingerprint, Confidence, Finding, Findings, Severity, SourceLocation};
use crate::language::Language;
use crate::semantic::{
    children_fit, field_child, field_child_exec, lemma_children_fit, node_text, node_text_exec,
    opt_node_text, positions_fit,
};
use crate::syntax::SyntaxNode;
use crate::taint::opt_text;
use crate::text::{sbytes, str_eq};

verus! {

/// Flags `Runtime.getRuntime().exec(..)` calls in Java.
#[derive(Debug, Default)]
pub struct JavaRuntimeExecRule;

/// A node is a call of `exec` on `Runtime.getRuntime()`.
pub open spec fn is_runtime_exec(n: SyntaxNode, src: Seq<u8>) -> bool {
    &&& n.kind@ == "method_invocation"@
    &&& opt_node_text(field_child(n, "name"@), src) == Some("exec"@)
    &&& opt_node_text(field_child(n, "object"@), src) == Some("Runtime.getRuntime()"@)
}

/// The flagged nodes of a subtree, in pre-order.
pub open spec fn exec_calls(n: SyntaxNode, src: Seq<u8>) -> Seq<SyntaxNode>
    decreases n,
{
    (if is_runtime_exec(n, src) {
        seq![n]
    } else {
        Seq::empty()
    }) + exec_calls_in(n.children@, src)
}

pub open spec fn exec_calls_in(cs: Seq<SyntaxNode>, src: Seq<u8>) -> Seq<SyntaxNode>
    decreases cs,
{
    if cs.len() == 0 {
        Seq::empty()
    } else {
        exec_calls_in(cs.drop_last(), src) + exec_calls(cs.last(), src)
    }
}

/// The location of a node in the file at `path`.
pub open spec fn located(l: SourceLocation, n: SyntaxNode, path: Seq<char>) -> bool {
    &&& l.path@ == path
    &&& l.start_byte == n.start_byte
    &&& l.end_byte == n.end_byte
    &&& l.start_line == n.start_row + 1
    &&& l.start_column == n.start_column + 1
    &&& l.end_line == n.end_row + 1
    &&& l.end_column == n.end_column + 1
}

/// `f` is this rule's finding for node `n`.
pub open spec fn runtime_exec_finding(f: Finding, n: SyntaxNode, path: Seq<char>) -> bool {
    &&& f.rule_id@ == "java.security.runtime-exec"@
    &&& f.rule_name@ == "Runtime exec call"@
    &&& f.severity == Severity::High
    &&& f.confidence == Confidence::High
    &&& f.message@ == "Detects Runtime.exec calls that may execute operating-system commands."@
    &&& opt_text(f.description) == Some(
        "Runtime.getRuntime().exec executes an operating-system command with the supplied argument. Untrusted input reaching this call enables OS-level command injection."@,
    )
    &&& opt_text(f.recommendation) == Some(
        "Avoid Runtime.exec where possible; prefer the ProcessBuilder API with a list of arguments (never a shell string, validate and allowlist inputs,and avoid shell metacharacters."@,
    )
    &&& opt_text(f.category) == Some("command-injection"@)
    &&& f.language == Some(Language::Java)
    &&& opt_text(f.framework) == Some("Java SE"@)
    &&& opt_text(f.cwe) == Some("CWE-78"@)
    &&& opt_text(f.owasp) == Some("A03:2021"@)
    &&& f.code_snippet is None
    &&& located(f.location, n, path)
    &&& f.fingerprint@ == spec_fingerprint(
        "java.security.runtime-exec"@,
        path,
        (n.start_row + 1) as nat,
        (n.start_column + 1) as nat,
    )
}

/// `fs` are this rule's findings for the nodes `ns`, in order.
pub open spec fn findings_for(fs: Seq<Finding>, ns: Seq<SyntaxNode>, path: Seq<char>) -> bool {
    fs.len() == ns.len() && forall|i: int| 0 <= i < ns.len() ==> #[trigger] runtime_exec_finding(fs[i], ns[i], path)
}

fn finding_at(n: &SyntaxNode, path: &str) -> (r: Finding)
    requires
        n.start_row < usize::MAX && n.start_column < usize::MAX && n.end_row < usize::MAX && n.end_column
            < usize::MAX,
    ensures
        runtime_exec_finding(r, *n, path@),
{
    let location = SourceLocation {
        path: path.to_owned(),
        start_byte: n.start_byte,
        end_byte: n.end_byte,
        start_line: n.start_row + 1,
        start_column: n.start_column + 1,
        end_line: n.end_row + 1,
        end_column: n.end_column + 1,
    };
    Finding::new(
        "java.security.runtime-exec",
        Severity::High,
        "Detects Runtime.exec calls that may execute operating-system commands.",
        location,
    ).with_confidence(Confidence::High).with_rule_name("Runtime exec call").with_description(
        "Runtime.getRuntime().exec executes an operating-system command with the supplied argument. Untrusted input reaching this call enables OS-level command injection.",
    ).with_recommendation(
        "Avoid Runtime.exec where possible; prefer the ProcessBuilder API with a list of arguments (never a shell string, validate and allowlist inputs,and avoid shell metacharacters.",
    ).with_category("command-injection").with_language(Language::Java).with_framework("Java SE").with_cwe(
        "CWE-78",
    ).with_owasp("A03:2021")
}

fn text_is(n: Option<&SyntaxNode>, source: &str, expected: &str) -> (r: bool)
    ensures
        r == (match n {
            Some(m) => node_text(*m, sbytes(source)) == Some(expected@),
            None => false,
        }),
{
    match n {
        Some(m) => match node_text_exec(m, source) {
            Some(t) => str_eq(t, expected),
            None => false,
        },
        None => false,
    }
}

fn visit(node: &SyntaxNode, source: &str, path: &str, findings: &mut Findings)
    requires
        positions_fit(*node),
    ensures
        exists|added: Seq<Finding>|
            final(findings).view() == old(findings).view() + added && findings_for(
                added,
                exec_calls(*node, sbytes(source)),
                path@,
            ),
    decreases node,
{
    let ghost src = sbytes(source);
    let ghost start = findings.view();
    let hit = str_eq(node.kind.as_str(), "method_invocation") && text_is(field_child_exec(node, "name"), source, "exec")
        && text_is(field_child_exec(node, "object"), source, "Runtime.getRuntime()");
    let ghost mut added: Seq<Finding> = Seq::empty();
    let ghost mut covered: Seq<SyntaxNode> = Seq::empty();
    if hit {
        let f = finding_at(node, path);
        proof {
            added = seq![f];
            covered = seq![*node];
        }
        findings.push(f);
    }
    proof {
        assert(covered == (if is_runtime_exec(*node, src) { seq![*node] } else { Seq::<SyntaxNode>::empty() }));
        assert(findings.view() =~= start + added);
        assert(exec_calls_in(node.children@.subrange(0, 0), src) =~= Seq::<SyntaxNode>::empty());
        assert(covered + Seq::<SyntaxNode>::empty() =~= covered);
    }
    let mut i: usize = 0;
    while i < node.children.len()
        invariant
            i <= node.children@.len(),
            positions_fit(*node),
            src == sbytes(source),
            findings.view() == start + added,
            findings_for(added, covered + exec_calls_in(node.children@.subrange(0, i as int), src), path@),
            covered == (if is_runtime_exec(*node, src) { seq![*node] } else { Seq::<SyntaxNode>::empty() }),
        decreases node.children@.len() - i,
    {
        proof {
            lemma_children_fit(node.children@, i as int);
            let sub = node.children@.subrange(0, i + 1);
            assert(sub.drop_last() =~= node.children@.subrange(0, i as int));
            assert(sub.last() == node.children@[i as int]);
        }
        let ghost before = findings.view();
        let ghost done = covered + exec_calls_in(node.children@.subrange(0, i as int), src);
        visit(&node.children[i], source, path, findings);
        proof {
            let more = choose|more: Seq<Finding>|
                findings.view() == before + more && findings_for(
                    more,
                    exec_calls(node.children@[i as int], src),
                    path@,
                );
            let ns = exec_calls(node.children@[i as int], src);
            assert(covered + exec_calls_in(node.children@.subrange(0, i + 1), src) =~= done + ns);
            assert forall|k: int| 0 <= k < (done + ns).len() implies #[trigger] runtime_exec_finding(
                (added + more)[k],
                (done + ns)[k],
                path@,
            ) by {
                if k < done.len() {
                    assert((added + more)[k] == added[k]);
                    assert((done + ns)[k] == done[k]);
                } else {
                    assert((added + more)[k] == more[k - added.len()]);
                    assert((done + ns)[k] == ns[k - done.len()]);
                }
            }
            added = added + more;
            assert(findings.view() =~= start + added);
        }
        i = i + 1;
    }
    proof {
        assert(node.children@.subrange(0, node.children@.len() as int) =~= node.children@);
        assert(exec_calls(*node, src) == covered + exec_calls_in(node.children@, src));
    }
}

impl JavaRuntimeExecRule {
    pub fn id(&self) -> (r: &'static str)
        ensures
            r@ == "java.security.runtime-exec"@,
    {
        "java.security.runtime-exec"
    }

    pub fn description(&self) -> (r: &'static str)
        ensures
            r@ == "Detects Runtime.exec calls that may execute operating-system commands."@,
    {
        "Detects Runtime.exec calls that may execute operating-system commands."
    }

    pub fn severity(&self) -> (r: Severity)
        ensures
            r == Severity::High,
    {
        Severity::High
    }

    pub fn languages(&self) -> (r: Vec<Language>)
        ensures
            r@ == seq![Language::Java],
    {
        let mut v: Vec<Language> = Vec::new();
        v.push(Language::Java);
        v
    }

    /// One finding per `Runtime.getRuntime().exec(..)` call of the tree, in
    /// source pre-order.
    pub fn check(&self, root: &SyntaxNode, source: &str, path: &str) -> (r: Findings)
        requires
            positions_fit(*root),
        ensures
            findings_for(r.view(), exec_calls(*root, sbytes(source)), path@),
    {
        let mut findings = Findings::new();
        visit(root, source, path, &mut findings);
        proof {
            let added = choose|added: Seq<Finding>|
                findings.view() == Seq::<Finding>::empty() + added && findings_for(
                    added,
                    exec_calls(*root, sbytes(source)),
                    path@,
                );
            assert(findings.view() =~= added);
        }
        findings
    }
}

/// The rules compiled into the binary.
#[derive(Debug, Default)]
pub struct RuleRegistry {
    rules: Vec<JavaRuntimeExecRule>,
}

impl RuleRegistry {
    pub closed spec fn rule_count(&self) -> nat {
        self.rules@.len()
    }

    /// The built-in rules: the Runtime.exec rule.
    pub fn built_in() -> (r: RuleRegistry)
        ensures
            r.rule_count() == 1,
    {
        let mut rules: Vec<JavaRuntimeExecRule> = Vec::new();
        rules.push(JavaRuntimeExecRule);
        RuleRegistry { rules }
    }

    /// The rules, in registration order.
    pub fn iter(&self) -> (r: std::slice::Iter<'_, JavaRuntimeExecRule>)
        ensures
            vstd::std_specs::slice::into_iter_elts(r).len() == self.rule_count(),
    {
        broadcast use vstd::std_specs::slice::axiom_spec_slice_iter;
        let it = self.rules.as_slice().iter();
        proof {
            assert(vstd::std_specs::slice::into_iter_elts(it) == vstd::std_specs::iter::IteratorSpec::remaining(&it).unref());
            assert(vstd::std_specs::iter::IteratorSpec::remaining(&it).unref() =~= self.rules@);
        }
        it
    }
}

} // verus!
