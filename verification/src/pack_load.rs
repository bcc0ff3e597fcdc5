//! Rule and pack loading: validation of the raw values decoded from rule
//! and manifest files into the rule model.

use vstd::prelude::*;
use vstd::string::*;
use crate::config::{ascii_lower, lemma_lowered_severity_labels};
use crate::finding::{confidence_label, severity_label, Confidence, Severity};
use crate::language::Language;
use crate::pack::{spec_semver_gt, semver_gt, PackError, PackMeta, PatternRule, QueryRule, Rule};
use crate::report::HAWK_VERSION;
use crate::taint::{opt_text, TaintConfig};
use crate::text::{push_str, str_eq};

verus! {

/// The values of a `pack.toml` manifest.
#[derive(Debug)]
pub struct RawManifest {
    pub name: String,
    pub version: String,
    pub description: Option<String>,
    pub authors: Option<Vec<String>>,
    /// `[metadata.compat] min-hawk`.
    pub min_hawk: Option<String>,
}

/// The values of a rule file.
#[derive(Debug)]
pub struct RawRule {
    pub id: String,
    pub name: Option<String>,
    pub description: String,
    pub recommendation: Option<String>,
    pub category: Option<String>,
    pub severity: String,
    pub confidence: Option<String>,
    pub languages: Vec<String>,
    pub cwe: Option<String>,
    pub owasp: Option<String>,
    pub framework: Option<String>,
    pub pattern: Option<RawPattern>,
    pub query: Option<RawQuery>,
    pub taint: Option<RawTaint>,
}

#[derive(Debug)]
pub struct RawPattern {
    pub regex: String,
    pub not_regex: Option<String>,
    pub fix: Option<String>,
}

#[derive(Debug)]
pub struct RawQuery {
    pub tree_sitter: String,
    pub anchor: Option<String>,
    pub not_regex: Option<String>,
}

#[derive(Debug)]
pub struct RawTaint {
    pub sources: Vec<String>,
    pub sanitizers: Vec<String>,
    pub sinks: Vec<String>,
}

/// Which analysis a rule declares.
pub open spec fn spec_capability(raw: RawRule) -> Option<Seq<char>> {
    match (raw.pattern, raw.query, raw.taint) {
        (Some(_), None, None) => Some("pattern"@),
        (None, Some(_), None) => Some("query"@),
        (None, None, Some(_)) => Some("taint"@),
        _ => None,
    }
}

pub open spec fn capability_error() -> Seq<char> {
    "a rule must declare exactly one capability (pattern, query, or taint)"@
}

impl RawRule {
    /// The capability the rule declares; a rule declares exactly one.
    pub fn capability_marker(&self) -> (r: Result<&'static str, String>)
        ensures
            match r {
                Ok(m) => spec_capability(*self) == Some(m@),
                Err(e) => spec_capability(*self) is None && e@ == capability_error(),
            },
    {
        match (&self.pattern, &self.query, &self.taint) {
            (Some(_), None, None) => Ok("pattern"),
            (None, Some(_), None) => Ok("query"),
            (None, None, Some(_)) => Ok("taint"),
            _ => Err("a rule must declare exactly one capability (pattern, query, or taint)".to_owned()),
        }
    }
}

/// The severity a rule file names (lower case).
pub open spec fn rule_severity(value: Seq<char>) -> Option<Severity> {
    if value == "info"@ {
        Some(Severity::Info)
    } else if value == "low"@ {
        Some(Severity::Low)
    } else if value == "medium"@ {
        Some(Severity::Medium)
    } else if value == "high"@ {
        Some(Severity::High)
    } else if value == "critical"@ {
        Some(Severity::Critical)
    } else {
        None
    }
}

/// A rule's severity is written as its label in lower case, and each such
/// word names exactly that severity: `critical` names critical, `medium`
/// names medium, and so on.
pub proof fn lemma_rule_severity_names_its_label(value: Seq<char>, s: Severity)
    ensures
        (rule_severity(value) == Some(s)) <==> (value == ascii_lower(severity_label(s))),
{
    lemma_lowered_severity_labels();
    reveal_strlit("info");
    reveal_strlit("low");
    reveal_strlit("medium");
    reveal_strlit("high");
    reveal_strlit("critical");
    assert("info"@ != "low"@ && "info"@ != "high"@ && "low"@ != "high"@) by {
        assert("info"@[0] != "low"@[0] && "info"@[0] != "high"@[0] && "low"@[0] != "high"@[0]);
    }
    assert("medium"@ != "info"@ && "medium"@ != "low"@ && "medium"@ != "high"@ && "medium"@ != "critical"@) by {
        assert("medium"@[0] != "info"@[0] && "medium"@[0] != "low"@[0] && "medium"@[0] != "high"@[0]);
        assert("medium"@[0] != "critical"@[0]);
    }
    assert("critical"@ != "info"@ && "critical"@ != "low"@ && "critical"@ != "high"@) by {
        assert("critical"@[0] != "info"@[0] && "critical"@[0] != "low"@[0] && "critical"@[0] != "high"@[0]);
    }
}

pub fn parse_severity(value: &str) -> (r: Option<Severity>)
    ensures
        r == rule_severity(value@),
{
    if str_eq(value, "info") {
        Some(Severity::Info)
    } else if str_eq(value, "low") {
        Some(Severity::Low)
    } else if str_eq(value, "medium") {
        Some(Severity::Medium)
    } else if str_eq(value, "high") {
        Some(Severity::High)
    } else if str_eq(value, "critical") {
        Some(Severity::Critical)
    } else {
        None
    }
}

/// The confidence a rule file names; absent means medium.
pub open spec fn rule_confidence(value: Option<Seq<char>>) -> Option<Confidence> {
    match value {
        None => Some(Confidence::Medium),
        Some(v) => if v == "medium"@ {
            Some(Confidence::Medium)
        } else if v == "low"@ {
            Some(Confidence::Low)
        } else if v == "high"@ {
            Some(Confidence::High)
        } else {
            None
        },
    }
}

/// A rule's confidence is written as its label in lower case, and each such
/// word names exactly that confidence; a rule that gives none is of medium
/// confidence.
pub proof fn lemma_rule_confidence_names_its_label(value: Seq<char>, c: Confidence)
    ensures
        (rule_confidence(Some(value)) == Some(c)) <==> (value == ascii_lower(confidence_label(c))),
        rule_confidence(None) == Some(Confidence::Medium),
{
    lemma_lowered_severity_labels();
    assert(confidence_label(Confidence::High) == severity_label(Severity::High));
    assert(confidence_label(Confidence::Medium) == severity_label(Severity::Medium));
    assert(confidence_label(Confidence::Low) == severity_label(Severity::Low));
    reveal_strlit("low");
    reveal_strlit("medium");
    reveal_strlit("high");
    assert("medium"@ != "low"@ && "medium"@ != "high"@ && "low"@ != "high"@) by {
        assert("medium"@[0] != "low"@[0] && "medium"@[0] != "high"@[0] && "low"@[0] != "high"@[0]);
    }
}

/// The language a rule file names.
pub open spec fn rule_language(value: Seq<char>) -> Option<Language> {
    if value == "java"@ {
        Some(Language::Java)
    } else if value == "javascript"@ {
        Some(Language::JavaScript)
    } else if value == "typescript"@ {
        Some(Language::TypeScript)
    } else if value == "python"@ {
        Some(Language::Python)
    } else if value == "go"@ {
        Some(Language::Go)
    } else {
        None
    }
}

/// The first name, from position `i` on, that is no known language.
pub open spec fn first_unknown_language(names: Seq<Seq<char>>, i: int) -> Option<Seq<char>>
    decreases names.len() - i,
{
    if i < 0 || i >= names.len() {
        None
    } else if rule_language(names[i]) is None {
        Some(names[i])
    } else {
        first_unknown_language(names, i + 1)
    }
}

pub open spec fn strings_of(v: Seq<String>) -> Seq<Seq<char>> {
    v.map_values(|x: String| x@)
}

/// `"rule '" + id + "'" + rest`.
pub open spec fn rule_message(id: Seq<char>, rest: Seq<char>) -> Seq<char> {
    "rule '"@ + id + rest
}

/// The error `parse_rule` reports for `raw`, if any, checked in this order:
/// severity, confidence, languages, capability.
pub open spec fn rule_error(raw: RawRule) -> Option<Seq<char>> {
    let names = strings_of(raw.languages@);
    if rule_severity(raw.severity@) is None {
        Some(rule_message(raw.id@, "' has unknown severity '"@ + raw.severity@ + "'"@))
    } else if rule_confidence(opt_text(raw.confidence)) is None {
        Some(rule_message(raw.id@, "' has unknown confidence '"@ + opt_text(raw.confidence)->0 + "'"@))
    } else if first_unknown_language(names, 0) is Some {
        Some(rule_message(raw.id@, "' has unknown language '"@ + first_unknown_language(names, 0)->0 + "'"@))
    } else if names.len() == 0 {
        Some(rule_message(raw.id@, "' declares no languages"@))
    } else if spec_capability(raw) is None {
        Some(rule_message(raw.id@, "': "@ + capability_error()))
    } else {
        None
    }
}

/// `rule` is the rule that `raw`, loaded from `path`, defines.
pub open spec fn defines(rule: Rule, raw: RawRule, path: Seq<char>) -> bool {
    let cap = spec_capability(raw);
    &&& rule.id@ == raw.id@
    &&& rule.name@ == (match opt_text(raw.name) {
        Some(n) => n,
        None => "rule"@,
    })
    &&& rule.description@ == raw.description@
    &&& opt_text(rule.recommendation) == opt_text(raw.recommendation)
    &&& opt_text(rule.category) == opt_text(raw.category)
    &&& Some(rule.severity) == rule_severity(raw.severity@)
    &&& Some(rule.confidence) == rule_confidence(opt_text(raw.confidence))
    &&& rule.languages@ == strings_of(raw.languages@).map_values(|n: Seq<char>| rule_language(n)->0)
    &&& opt_text(rule.cwe) == opt_text(raw.cwe)
    &&& opt_text(rule.owasp) == opt_text(raw.owasp)
    &&& opt_text(rule.framework) == opt_text(raw.framework)
    &&& rule.source@ == path
    &&& (rule.pattern is Some <==> cap == Some("pattern"@))
    &&& (rule.query is Some <==> cap == Some("query"@))
    &&& (rule.taint is Some <==> cap == Some("taint"@))
    &&& (rule.pattern matches Some(p) ==> raw.pattern matches Some(q) && p.regex@ == q.regex@ && opt_text(
        p.not_regex,
    ) == opt_text(q.not_regex) && opt_text(p.fix) == opt_text(q.fix))
    &&& (rule.query matches Some(p) ==> raw.query matches Some(q) && p.tree_sitter@ == q.tree_sitter@
        && opt_text(p.anchor) == opt_text(q.anchor) && opt_text(p.not_regex) == opt_text(q.not_regex))
    &&& (rule.taint matches Some(t) ==> raw.taint matches Some(q) && strings_of(t.sources@) == strings_of(
        q.sources@,
    ) && strings_of(t.sanitizers@) == strings_of(q.sanitizers@) && strings_of(t.sinks@) == strings_of(
        q.sinks@,
    ))
}

fn rule_error_message(id: &String, middle: &str, value: &str, tail: &str) -> (r: PackError)
    ensures
        r matches PackError::Validate { message } && message@ == rule_message(id@, middle@ + value@ + tail@),
{
    let mut message = "rule '".to_owned();
    push_str(&mut message, id.as_str());
    push_str(&mut message, middle);
    push_str(&mut message, value);
    push_str(&mut message, tail);
    PackError::Validate { message }
}

fn parse_language(value: &str) -> (r: Option<Language>)
    ensures
        r == rule_language(value@),
{
    if str_eq(value, "java") {
        Some(Language::Java)
    } else if str_eq(value, "javascript") {
        Some(Language::JavaScript)
    } else if str_eq(value, "typescript") {
        Some(Language::TypeScript)
    } else if str_eq(value, "python") {
        Some(Language::Python)
    } else if str_eq(value, "go") {
        Some(Language::Go)
    } else {
        None
    }
}

/// Validates a rule file's values into a rule.
pub fn parse_rule(raw: RawRule, path: String) -> (r: Result<Rule, PackError>)
    ensures
        match r {
            Ok(rule) => rule_error(raw) is None && defines(rule, raw, path@),
            Err(PackError::Validate { message }) => rule_error(raw) == Some(message@),
            Err(_) => false,
        },
{
    proof {
        reveal_strlit("");
        reveal_strlit("pattern");
        reveal_strlit("query");
        reveal_strlit("taint");
        assert(""@ + "' declares no languages"@ =~= "' declares no languages"@);
        assert("pattern"@.len() == 7 && "query"@.len() == 5 && "taint"@.len() == 5);
        assert("query"@[0] != "taint"@[0]);
    }
    let severity = match parse_severity(raw.severity.as_str()) {
        Some(s) => s,
        None => {
            return Err(rule_error_message(&raw.id, "' has unknown severity '", raw.severity.as_str(), "'"));
        },
    };
    let confidence = match &raw.confidence {
        None => Confidence::Medium,
        Some(c) => {
            if str_eq(c.as_str(), "medium") {
                Confidence::Medium
            } else if str_eq(c.as_str(), "low") {
                Confidence::Low
            } else if str_eq(c.as_str(), "high") {
                Confidence::High
            } else {
                return Err(rule_error_message(&raw.id, "' has unknown confidence '", c.as_str(), "'"));
            }
        },
    };
    let ghost names = strings_of(raw.languages@);
    let mut languages: Vec<Language> = Vec::new();
    let mut i: usize = 0;
    while i < raw.languages.len()
        invariant
            i <= raw.languages@.len(),
            names == strings_of(raw.languages@),
            rule_severity(raw.severity@) == Some(severity),
            rule_confidence(opt_text(raw.confidence)) == Some(confidence),
            first_unknown_language(names, i as int) == first_unknown_language(names, 0),
            languages@ == names.subrange(0, i as int).map_values(|n: Seq<char>| rule_language(n)->0),
        decreases raw.languages@.len() - i,
    {
        let name = &raw.languages[i];
        assert(names[i as int] == name@);
        match parse_language(name.as_str()) {
            Some(l) => {
                let ghost prev = languages@;
                languages.push(l);
                assert(languages@ =~= names.subrange(0, i + 1).map_values(|n: Seq<char>| rule_language(n)->0));
            },
            None => {
                return Err(rule_error_message(&raw.id, "' has unknown language '", name.as_str(), "'"));
            },
        }
        i = i + 1;
    }
    assert(names.subrange(0, names.len() as int) =~= names);
    if languages.len() == 0 {
        return Err(rule_error_message(&raw.id, "' declares no languages", "", ""));
    }
    let capability = match raw.capability_marker() {
        Ok(c) => c,
        Err(message) => {
            return Err(rule_error_message(&raw.id, "': ", message.as_str(), ""));
        },
    };
    let RawRule {
        id,
        name,
        description,
        recommendation,
        category,
        severity: _,
        confidence: _,
        languages: _,
        cwe,
        owasp,
        framework,
        pattern,
        query,
        taint,
    } = raw;
    let pattern = if str_eq(capability, "pattern") {
        match pattern {
            Some(p) => Some(PatternRule { regex: p.regex, not_regex: p.not_regex, fix: p.fix }),
            None => None,
        }
    } else {
        None
    };
    let query = if str_eq(capability, "query") {
        match query {
            Some(q) => Some(QueryRule { tree_sitter: q.tree_sitter, anchor: q.anchor, not_regex: q.not_regex }),
            None => None,
        }
    } else {
        None
    };
    let taint = if str_eq(capability, "taint") {
        match taint {
            Some(t) => Some(TaintConfig { sources: t.sources, sanitizers: t.sanitizers, sinks: t.sinks }),
            None => None,
        }
    } else {
        None
    };
    let name = match name {
        Some(n) => n,
        None => "rule".to_owned(),
    };
    Ok(
        Rule {
            id,
            name,
            description,
            recommendation,
            category,
            severity,
            confidence,
            languages,
            cwe,
            owasp,
            framework,
            pattern,
            taint,
            query,
            source: path,
        },
    )
}

/// The pack metadata a manifest declares.
pub fn meta_of_manifest(raw: RawManifest) -> (r: PackMeta)
    ensures
        r.name@ == raw.name@,
        r.version@ == raw.version@,
        opt_text(r.description) == opt_text(raw.description),
        r.authors == raw.authors,
        opt_text(r.min_hawk) == opt_text(raw.min_hawk),
{
    PackMeta {
        name: raw.name,
        version: raw.version,
        description: raw.description,
        authors: raw.authors,
        min_hawk: raw.min_hawk,
    }
}

/// The message of a pack that needs a later Hawk.
pub open spec fn too_new_message(name: Seq<char>, min: Seq<char>) -> Seq<char> {
    "pack '"@ + name + "' requires hawk >= "@ + min + ", but this is "@ + HAWK_VERSION@
}

/// Checks that this Hawk is recent enough for a pack.
pub fn check_min_hawk(meta: &PackMeta) -> (r: Result<(), PackError>)
    ensures
        match r {
            Ok(()) => !(meta.min_hawk matches Some(min) && spec_semver_gt(min@, HAWK_VERSION@)),
            Err(PackError::Validate { message }) => meta.min_hawk matches Some(min) && spec_semver_gt(
                min@,
                HAWK_VERSION@,
            ) && message@ == too_new_message(meta.name@, min@),
            Err(_) => false,
        },
{
    if let Some(min) = &meta.min_hawk {
        if semver_gt(min.as_str(), HAWK_VERSION) {
            let mut message = "pack '".to_owned();
            push_str(&mut message, meta.name.as_str());
            push_str(&mut message, "' requires hawk >= ");
            push_str(&mut message, min.as_str());
            push_str(&mut message, ", but this is ");
            push_str(&mut message, HAWK_VERSION);
            return Err(PackError::Validate { message });
        }
    }
    Ok(())
}

} // verus!
