//! Taint rules: the configuration half of a rule (source, sanitizer and sink
//! patterns) and the conversion of engine results into findings.

use vstd::prelude::*;
use vstd::string::*;
use crate::finding::{spec_fingerprint, Confidence, Finding, Severity, SourceLocation};
use crate::language::Language;
use crate::taint_engine::{line_text, spec_line_text};
use crate::text::{push_str, sbytes};

verus! {

/// The configuration half of a taint rule: lists of call-site patterns.
#[derive(Debug, PartialEq, Eq, Default)]
pub struct TaintConfig {
    pub sources: Vec<String>,
    pub sanitizers: Vec<String>,
    pub sinks: Vec<String>,
}

/// A single taint finding produced by the engine, before it is merged into
/// the finding model.
#[derive(Debug, PartialEq, Eq)]
pub struct TaintFinding {
    pub start_byte: usize,
    pub end_byte: usize,
    pub start_line: usize,
    pub start_column: usize,
    /// Variable or expression that carried the taint into the sink.
    pub tainted: String,
    /// The sink expression that was hit.
    pub sink: String,
}

/// Rule metadata copied onto each taint finding.
#[derive(Debug, Clone, Copy)]
pub struct TaintMetadata<'a> {
    pub rule_id: &'a str,
    pub rule_name: &'a str,
    pub description: &'a str,
    pub recommendation: Option<&'a str>,
    pub category: Option<&'a str>,
    pub framework: Option<&'a str>,
    pub cwe: Option<&'a str>,
    pub owasp: Option<&'a str>,
    pub language: Option<Language>,
    pub severity: Severity,
    pub confidence: Confidence,
}

/// The text of an optional owned string.
pub open spec fn opt_text(o: Option<String>) -> Option<Seq<char>> {
    match o {
        Some(s) => Some(s@),
        None => None,
    }
}

/// The text of an optional string slice.
pub open spec fn opt_str_text(o: Option<&str>) -> Option<Seq<char>> {
    match o {
        Some(s) => Some(s@),
        None => None,
    }
}

/// The message of a taint finding.
pub open spec fn taint_message(tainted: Seq<char>, sink: Seq<char>) -> Seq<char> {
    "Tainted data from "@ + tainted + " reached sink "@ + sink + "."@
}

/// Builds a normal finding from a taint finding plus rule metadata. Its span
/// is the sink's, on one line; its snippet is the trimmed source line.
pub fn to_finding(taint: &TaintFinding, source: &str, metadata: TaintMetadata<'_>, path: &str) -> (r: Finding)
    requires
        taint.start_byte <= taint.end_byte,
        taint.start_column + (taint.end_byte - taint.start_byte) <= usize::MAX,
        taint.start_byte >= sbytes(source).len() || vstd::utf8::is_char_boundary(
            sbytes(source),
            taint.start_byte as int,
        ),
    ensures
        r.rule_id@ == metadata.rule_id@,
        r.rule_name@ == metadata.rule_name@,
        r.severity == metadata.severity,
        r.confidence == metadata.confidence,
        r.message@ == taint_message(taint.tainted@, taint.sink@),
        opt_text(r.description) == Some(metadata.description@),
        opt_text(r.recommendation) == opt_str_text(metadata.recommendation),
        opt_text(r.category) == opt_str_text(metadata.category),
        opt_text(r.framework) == opt_str_text(metadata.framework),
        opt_text(r.cwe) == opt_str_text(metadata.cwe),
        opt_text(r.owasp) == opt_str_text(metadata.owasp),
        r.language == metadata.language,
        opt_text(r.code_snippet) == Some(spec_line_text(sbytes(source), taint.start_byte as int)),
        r.location.path@ == path@,
        r.location.start_byte == taint.start_byte,
        r.location.end_byte == taint.end_byte,
        r.location.start_line == taint.start_line,
        r.location.start_column == taint.start_column,
        r.location.end_line == taint.start_line,
        r.location.end_column == taint.start_column + (taint.end_byte - taint.start_byte),
        r.fingerprint@ == spec_fingerprint(
            metadata.rule_id@,
            path@,
            taint.start_line as nat,
            taint.start_column as nat,
        ),
{
    let mut message = "Tainted data from ".to_owned();
    push_str(&mut message, taint.tainted.as_str());
    push_str(&mut message, " reached sink ");
    push_str(&mut message, taint.sink.as_str());
    push_str(&mut message, ".");
    let location = SourceLocation {
        path: path.to_owned(),
        start_byte: taint.start_byte,
        end_byte: taint.end_byte,
        start_line: taint.start_line,
        start_column: taint.start_column,
        end_line: taint.start_line,
        end_column: taint.start_column + (taint.end_byte - taint.start_byte),
    };
    let snippet = line_text(source, taint.start_byte);
    let mut finding = Finding::new(metadata.rule_id, metadata.severity, message.as_str(), location)
        .with_confidence(metadata.confidence)
        .with_rule_name(metadata.rule_name)
        .with_description(metadata.description)
        .with_code_snippet(snippet.as_str());
    if let Some(value) = metadata.recommendation {
        finding = finding.with_recommendation(value);
    }
    if let Some(value) = metadata.category {
        finding = finding.with_category(value);
    }
    if let Some(value) = metadata.framework {
        finding = finding.with_framework(value);
    }
    if let Some(value) = metadata.cwe {
        finding = finding.with_cwe(value);
    }
    if let Some(value) = metadata.owasp {
        finding = finding.with_owasp(value);
    }
    if let Some(value) = metadata.language {
        finding = finding.with_language(value);
    }
    finding
}

} // verus!
