//! The normalized finding model: severity, confidence, location, metadata and
//! a stable fingerprint.

use vstd::prelude::*;
use vstd::string::*;
use vstd::utf8::encode_utf8;
use crate::hashing::{fnv1a, hash_bytes, hex_digits};
use crate::language::Language;
use crate::text::{decimal, push_char, push_decimal};

verus! {

#[derive(Debug, Clone, Copy, PartialEq, Eq, Structural, PartialOrd, Ord, Hash)]
pub enum Severity {
    Info,
    Low,
    Medium,
    High,
    Critical,
}

/// Position of a severity in the order Info < Low < Medium < High < Critical.
pub open spec fn severity_rank(s: Severity) -> nat {
    match s {
        Severity::Info => 0,
        Severity::Low => 1,
        Severity::Medium => 2,
        Severity::High => 3,
        Severity::Critical => 4,
    }
}

/// The display label of a severity.
pub open spec fn severity_label(s: Severity) -> Seq<char> {
    match s {
        Severity::Info => "INFO"@,
        Severity::Low => "LOW"@,
        Severity::Medium => "MEDIUM"@,
        Severity::High => "HIGH"@,
        Severity::Critical => "CRITICAL"@,
    }
}

impl Severity {
    /// Rank in the severity order.
    pub fn rank(&self) -> (r: u8)
        ensures
            r == severity_rank(*self),
    {
        match self {
            Severity::Info => 0,
            Severity::Low => 1,
            Severity::Medium => 2,
            Severity::High => 3,
            Severity::Critical => 4,
        }
    }

    /// Whether this severity is at or above `minimum`.
    pub fn at_least(&self, minimum: Severity) -> (r: bool)
        ensures
            r == (severity_rank(*self) >= severity_rank(minimum)),
    {
        self.rank() >= minimum.rank()
    }

    /// The stable display label (`INFO`, `LOW`, `MEDIUM`, `HIGH`, `CRITICAL`).
    pub fn to_string(&self) -> (r: String)
        ensures
            r@ == severity_label(*self),
    {
        match self {
            Severity::Info => "INFO".to_owned(),
            Severity::Low => "LOW".to_owned(),
            Severity::Medium => "MEDIUM".to_owned(),
            Severity::High => "HIGH".to_owned(),
            Severity::Critical => "CRITICAL".to_owned(),
        }
    }
}

/// How certain the analyzer is that a reported issue is real.
#[derive(Debug, Clone, Copy, PartialEq, Eq, Structural, Hash)]
pub enum Confidence {
    High,
    Medium,
    Low,
}

pub open spec fn confidence_label(c: Confidence) -> Seq<char> {
    match c {
        Confidence::High => "HIGH"@,
        Confidence::Medium => "MEDIUM"@,
        Confidence::Low => "LOW"@,
    }
}

impl Confidence {
    /// The stable display label (`HIGH`, `MEDIUM`, `LOW`).
    pub fn to_string(&self) -> (r: String)
        ensures
            r@ == confidence_label(*self),
    {
        match self {
            Confidence::High => "HIGH".to_owned(),
            Confidence::Medium => "MEDIUM".to_owned(),
            Confidence::Low => "LOW".to_owned(),
        }
    }
}

#[derive(Debug, PartialEq, Eq)]
pub struct SourceLocation {
    pub path: String,
    pub start_byte: usize,
    pub end_byte: usize,
    pub start_line: usize,
    pub start_column: usize,
    pub end_line: usize,
    pub end_column: usize,
}

impl Clone for SourceLocation {
    fn clone(&self) -> (r: Self)
        ensures
            r == *self,
    {
        SourceLocation {
            path: self.path.clone(),
            start_byte: self.start_byte,
            end_byte: self.end_byte,
            start_line: self.start_line,
            start_column: self.start_column,
            end_line: self.end_line,
            end_column: self.end_column,
        }
    }
}

/// Clones an optional string, keeping its value.
pub fn clone_opt(s: &Option<String>) -> (r: Option<String>)
    ensures
        r == *s,
{
    match s {
        Some(v) => Some(v.clone()),
        None => None,
    }
}

#[derive(Debug, PartialEq, Eq)]
pub struct Finding {
    pub rule_id: String,
    pub rule_name: String,
    pub severity: Severity,
    pub confidence: Confidence,
    pub message: String,
    pub description: Option<String>,
    pub recommendation: Option<String>,
    pub category: Option<String>,
    pub language: Option<Language>,
    pub framework: Option<String>,
    pub cwe: Option<String>,
    pub owasp: Option<String>,
    pub code_snippet: Option<String>,
    pub location: SourceLocation,
    pub fingerprint: String,
}

impl Clone for Finding {
    fn clone(&self) -> (r: Self)
        ensures
            r == *self,
    {
        Finding {
            rule_id: self.rule_id.clone(),
            rule_name: self.rule_name.clone(),
            severity: self.severity,
            confidence: self.confidence,
            message: self.message.clone(),
            description: clone_opt(&self.description),
            recommendation: clone_opt(&self.recommendation),
            category: clone_opt(&self.category),
            language: self.language,
            framework: clone_opt(&self.framework),
            cwe: clone_opt(&self.cwe),
            owasp: clone_opt(&self.owasp),
            code_snippet: clone_opt(&self.code_snippet),
            location: self.location.clone(),
            fingerprint: self.fingerprint.clone(),
        }
    }
}

/// The canonical identity string of a finding:
/// `rule_id \0 path \0 start-line \0 start-column`.
pub open spec fn fingerprint_material(rule_id: Seq<char>, path: Seq<char>, line: nat, column: nat) -> Seq<char> {
    rule_id + seq!['\0'] + path + seq!['\0'] + decimal(line) + seq!['\0'] + decimal(column)
}

/// The fingerprint: FNV-1a 64 of the UTF-8 identity string, as 16 lower-case hex digits.
pub open spec fn spec_fingerprint(rule_id: Seq<char>, path: Seq<char>, line: nat, column: nat) -> Seq<char> {
    hex_digits(fnv1a(encode_utf8(fingerprint_material(rule_id, path, line, column))) as nat, 16)
}

/// Computes the fingerprint of a finding identity.
pub fn fingerprint(rule_id: &str, path: &str, line: usize, column: usize) -> (r: String)
    ensures
        r@ == spec_fingerprint(rule_id@, path@, line as nat, column as nat),
{
    let mut material = rule_id.to_owned();
    push_char(&mut material, '\0');
    material.append(path);
    push_char(&mut material, '\0');
    push_decimal(&mut material, line as u64);
    push_char(&mut material, '\0');
    push_decimal(&mut material, column as u64);
    assert(material@ =~= fingerprint_material(rule_id@, path@, line as nat, column as nat));
    hash_bytes(material.as_str().as_bytes())
}

impl Finding {
    /// A finding with default metadata: the rule name is the rule id,
    /// confidence is `Medium`, optional fields are empty, and the fingerprint
    /// is computed from the id and the start of the location.
    pub fn new(rule_id: &str, severity: Severity, message: &str, location: SourceLocation) -> (r: Finding)
        ensures
            r.rule_id@ == rule_id@,
            r.rule_name@ == rule_id@,
            r.severity == severity,
            r.confidence == Confidence::Medium,
            r.message@ == message@,
            r.description is None,
            r.recommendation is None,
            r.category is None,
            r.language is None,
            r.framework is None,
            r.cwe is None,
            r.owasp is None,
            r.code_snippet is None,
            r.location == location,
            r.fingerprint@ == spec_fingerprint(
                rule_id@,
                location.path@,
                location.start_line as nat,
                location.start_column as nat,
            ),
    {
        let fingerprint = fingerprint(rule_id, location.path.as_str(), location.start_line, location.start_column);
        Finding {
            rule_id: rule_id.to_owned(),
            rule_name: rule_id.to_owned(),
            severity,
            confidence: Confidence::Medium,
            message: message.to_owned(),
            description: None,
            recommendation: None,
            category: None,
            language: None,
            framework: None,
            cwe: None,
            owasp: None,
            code_snippet: None,
            location,
            fingerprint,
        }
    }

    pub fn with_confidence(self, confidence: Confidence) -> (r: Finding)
        ensures
            r == (Finding { confidence, ..self }),
    {
        Finding { confidence, ..self }
    }

    pub fn with_rule_name(self, name: &str) -> (r: Finding)
        ensures
            r.rule_name@ == name@,
            r == (Finding { rule_name: r.rule_name, ..self }),
    {
        Finding { rule_name: name.to_owned(), ..self }
    }

    pub fn with_description(self, value: &str) -> (r: Finding)
        ensures
            r.description matches Some(d) && d@ == value@,
            r == (Finding { description: r.description, ..self }),
    {
        Finding { description: Some(value.to_owned()), ..self }
    }

    pub fn with_recommendation(self, value: &str) -> (r: Finding)
        ensures
            r.recommendation matches Some(d) && d@ == value@,
            r == (Finding { recommendation: r.recommendation, ..self }),
    {
        Finding { recommendation: Some(value.to_owned()), ..self }
    }

    pub fn with_category(self, value: &str) -> (r: Finding)
        ensures
            r.category matches Some(d) && d@ == value@,
            r == (Finding { category: r.category, ..self }),
    {
        Finding { category: Some(value.to_owned()), ..self }
    }

    pub fn with_language(self, language: Language) -> (r: Finding)
        ensures
            r == (Finding { language: Some(language), ..self }),
    {
        Finding { language: Some(language), ..self }
    }

    pub fn with_framework(self, value: &str) -> (r: Finding)
        ensures
            r.framework matches Some(d) && d@ == value@,
            r == (Finding { framework: r.framework, ..self }),
    {
        Finding { framework: Some(value.to_owned()), ..self }
    }

    pub fn with_cwe(self, value: &str) -> (r: Finding)
        ensures
            r.cwe matches Some(d) && d@ == value@,
            r == (Finding { cwe: r.cwe, ..self }),
    {
        Finding { cwe: Some(value.to_owned()), ..self }
    }

    pub fn with_owasp(self, value: &str) -> (r: Finding)
        ensures
            r.owasp matches Some(d) && d@ == value@,
            r == (Finding { owasp: r.owasp, ..self }),
    {
        Finding { owasp: Some(value.to_owned()), ..self }
    }

    pub fn with_code_snippet(self, value: &str) -> (r: Finding)
        ensures
            r.code_snippet matches Some(d) && d@ == value@,
            r == (Finding { code_snippet: r.code_snippet, ..self }),
    {
        Finding { code_snippet: Some(value.to_owned()), ..self }
    }
}

/// An ordered collection of findings.
#[derive(Debug, Default, PartialEq, Eq)]
pub struct Findings {
    findings: Vec<Finding>,
}

impl Findings {
    pub closed spec fn view(&self) -> Seq<Finding> {
        self.findings@
    }


    pub fn new() -> (r: Findings)
        ensures
            r.view() == Seq::<Finding>::empty(),
    {
        Findings { findings: Vec::new() }
    }

    /// Appends a finding; insertion order is preserved.
    pub fn push(&mut self, finding: Finding)
        ensures
            final(self).view() == old(self).view().push(finding),
    {
        self.findings.push(finding);
    }

    pub fn len(&self) -> (r: usize)
        ensures
            r == self.view().len(),
    {
        self.findings.len()
    }

    pub fn is_empty(&self) -> (r: bool)
        ensures
            r == (self.view().len() == 0),
    {
        self.findings.len() == 0
    }

    /// The findings in insertion order.
    pub fn as_slice(&self) -> (r: &[Finding])
        ensures
            r@ == self.view(),
    {
        self.findings.as_slice()
    }

    /// Iterates the findings in insertion order.
    pub fn iter(&self) -> (r: std::slice::Iter<'_, Finding>)
        ensures
            vstd::std_specs::slice::into_iter_elts(r) == self.view(),
    {
        broadcast use vstd::std_specs::slice::axiom_spec_slice_iter;
        let it = self.findings.as_slice().iter();
        proof {
            assert(vstd::std_specs::slice::into_iter_elts(it) == vstd::std_specs::iter::IteratorSpec::remaining(&it).unref());
            assert(vstd::std_specs::iter::IteratorSpec::remaining(&it).unref() =~= self.findings@);
        }
        it
    }
}

impl Clone for Findings {
    fn clone(&self) -> (r: Self)
        ensures
            r.view() == self.view(),
    {
        let mut out: Vec<Finding> = Vec::new();
        let mut i: usize = 0;
        while i < self.findings.len()
            invariant
                i <= self.findings@.len(),
                out@ == self.findings@.subrange(0, i as int),
            decreases self.findings@.len() - i,
        {
            out.push(self.findings[i].clone());
            i = i + 1;
            assert(out@ =~= self.findings@.subrange(0, i as int));
        }
        assert(self.findings@.subrange(0, self.findings@.len() as int) =~= self.findings@);
        Findings { findings: out }
    }
}

} // verus!
