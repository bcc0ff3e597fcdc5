//! Rule packs and data-driven rules: the rule model, pack metadata and the
//! version comparison used for pack compatibility.

use vstd::prelude::*;
use vstd::string::*;
use crate::finding::{Confidence, Severity};
use crate::language::Language;
use crate::taint::TaintConfig;
use crate::text::{chars_of, first_from, is_first_occurrence_from, lemma_first_from, lemma_first_from_bounds, string_from_chars, push_char, push_str, sbytes, text_of};
use crate::finding::{spec_fingerprint, Finding, SourceLocation};
use crate::taint::opt_text;
use crate::taint_engine::{line_start, line_stop, line_text, spec_line_text};
use vstd::utf8::*;
use crate::order::bytes_less;
use crate::pack_load::{check_min_hawk, too_new_message};
use crate::report::HAWK_VERSION;
use crate::query::opt_str;

verus! {

#[derive(Debug, PartialEq, Eq, Default)]
pub struct PackMeta {
    pub name: String,
    pub version: String,
    pub description: Option<String>,
    pub authors: Option<Vec<String>>,
    /// Minimum Hawk version this pack requires.
    pub min_hawk: Option<String>,
}

#[derive(Debug, PartialEq, Eq)]
pub struct Rule {
    pub id: String,
    pub name: String,
    pub description: String,
    pub recommendation: Option<String>,
    pub category: Option<String>,
    pub severity: Severity,
    pub confidence: Confidence,
    pub languages: Vec<Language>,
    pub cwe: Option<String>,
    pub owasp: Option<String>,
    /// Framework this rule targets, for framework-aware rules.
    pub framework: Option<String>,
    /// The regex pattern, when this rule is a pattern-based rule.
    pub pattern: Option<PatternRule>,
    /// The taint configuration, when this rule is a data-flow rule.
    pub taint: Option<TaintConfig>,
    /// The tree-sitter query, when this rule is an AST rule.
    pub query: Option<QueryRule>,
    /// Source file this rule was loaded from (for diagnostics).
    pub source: String,
}

#[derive(Debug, PartialEq, Eq)]
pub struct PatternRule {
    pub regex: String,
    /// Matches of the primary regex whose text also matches this are discarded.
    pub not_regex: Option<String>,
    /// Optional replacement suggestion reported with the finding.
    pub fix: Option<String>,
}

/// A tree-sitter query (S-expression pattern).
#[derive(Debug, PartialEq, Eq)]
pub struct QueryRule {
    pub tree_sitter: String,
    /// Capture name (without `@`) whose node marks the finding location.
    pub anchor: Option<String>,
    /// Matches whose anchored text also matches this regex are discarded.
    pub not_regex: Option<String>,
}

/// Errors produced while loading or validating packs.
#[derive(Debug, PartialEq, Eq)]
pub enum PackError {
    Read { path: String, source: String },
    Parse { path: String, source: String },
    Validate { message: String },
    DuplicateId { id: String, first: String, second: String },
}

/// The pieces of `s` between occurrences of `sep` (`str::split`).
pub open spec fn split_on(s: Seq<char>, sep: char) -> Seq<Seq<char>>
    decreases s.len(),
{
    let k = first_from(s, seq![sep], 0);
    proof {
        lemma_first_from_bounds(s, seq![sep], 0);
    }
    if k < 0 {
        seq![s]
    } else {
        seq![s.subrange(0, k)] + split_on(s.subrange(k + 1, s.len() as int), sep)
    }
}

pub open spec fn is_digit(c: char) -> bool {
    '0' <= c && c <= '9'
}

/// The value of a string of decimal digits.
pub open spec fn digits_value(s: Seq<char>) -> nat
    decreases s.len(),
{
    if s.len() == 0 {
        0
    } else {
        digits_value(s.drop_last()) * 10 + ((s.last() as u32) - ('0' as u32)) as nat
    }
}

/// One or more digits whose value fits in 64 bits.
pub open spec fn parse_digits(body: Seq<char>) -> Option<nat> {
    if body.len() > 0 && (forall|i: int| 0 <= i < body.len() ==> is_digit(#[trigger] body[i])) && digits_value(body)
        <= u64::MAX {
        Some(digits_value(body))
    } else {
        None
    }
}

/// `u64::from_str`: an optional `+` then one or more digits, within range.
pub open spec fn parse_u64(s: Seq<char>) -> Option<nat> {
    parse_digits(if s.len() > 0 && s[0] == '+' { s.drop_first() } else { s })
}

/// The number a version component stands for (0 when it is not a number).
pub open spec fn component_value(s: Seq<char>) -> nat {
    match parse_u64(s) {
        Some(v) => v,
        None => 0,
    }
}

/// The `i`-th of the first three dot-separated components of a version, as a
/// number (missing or non-numeric components count as 0).
pub open spec fn version_part(v: Seq<char>, i: int) -> nat {
    let pieces = split_on(v, '.');
    if i < pieces.len() {
        component_value(pieces[i])
    } else {
        0
    }
}

/// `left` is a later version than `right`: its (major, minor, patch) is
/// lexicographically greater.
pub open spec fn spec_semver_gt(left: Seq<char>, right: Seq<char>) -> bool {
    let (a0, a1, a2) = (version_part(left, 0), version_part(left, 1), version_part(left, 2));
    let (b0, b1, b2) = (version_part(right, 0), version_part(right, 1), version_part(right, 2));
    a0 > b0 || (a0 == b0 && (a1 > b1 || (a1 == b1 && a2 > b2)))
}

proof fn lemma_digits_value_grows(s: Seq<char>, k: int)
    requires
        0 <= k <= s.len(),
        forall|i: int| 0 <= i < s.len() ==> is_digit(#[trigger] s[i]),
    ensures
        digits_value(s) >= digits_value(s.subrange(0, k)),
    decreases s.len() - k,
{
    if k < s.len() {
        assert forall|i: int| 0 <= i < s.drop_last().len() implies is_digit(#[trigger] s.drop_last()[i]) by {
            assert(s.drop_last()[i] == s[i]);
        }
        lemma_digits_value_grows(s.drop_last(), k);
        assert(is_digit(s[s.len() - 1]));
        assert(s.drop_last().subrange(0, k) =~= s.subrange(0, k));
        assert(digits_value(s) >= digits_value(s.drop_last())) by (nonlinear_arith)
            requires
                digits_value(s) == digits_value(s.drop_last()) * 10 + ((s.last() as u32) - ('0' as u32)) as nat,
        ;
    } else {
        assert(s.subrange(0, k) =~= s);
    }
}

/// `u64::from_str` on the characters `cs[a..b]`.
pub fn parse_u64_chars(cs: &[char], a: usize, b: usize) -> (r: Option<u64>)
    requires
        a <= b <= cs@.len(),
    ensures
        match r {
            Some(v) => parse_u64(cs@.subrange(a as int, b as int)) == Some(v as nat),
            None => parse_u64(cs@.subrange(a as int, b as int)) is None,
        },
{
    let ghost s = cs@.subrange(a as int, b as int);
    let mut start = a;
    if start < b && cs[start] == '+' {
        start = start + 1;
    }
    let ghost body = cs@.subrange(start as int, b as int);
    proof {
        if a < b && cs@[a as int] == '+' {
            assert(body =~= s.drop_first());
        } else {
            assert(body =~= s);
        }
        assert(parse_u64(s) == parse_digits(body));
    }
    if start == b {
        return None;
    }
    let mut value: u64 = 0;
    let mut i = start;
    while i < b
        invariant
            start <= i <= b <= cs@.len(),
            body == cs@.subrange(start as int, b as int),
            parse_u64(s) == parse_digits(body),
            s == cs@.subrange(a as int, b as int),
            forall|j: int| start <= j < i ==> is_digit(cs@[j]),
            value == digits_value(cs@.subrange(start as int, i as int)),
        decreases b - i,
    {
        let c = cs[i];
        if !('0' <= c && c <= '9') {
            assert(!is_digit(body[i - start]));
            assert(parse_digits(body) is None);
            return None;
        }
        let d = (c as u32 - '0' as u32) as u64;
        proof {
            assert(cs@.subrange(start as int, i + 1).drop_last() =~= cs@.subrange(start as int, i as int));
        }
        if value > 1844674407370955161 || (value == 1844674407370955161 && d > 5) {
            proof {
                assert(digits_value(cs@.subrange(start as int, i + 1)) > u64::MAX);
                assert(body.subrange(0, i + 1 - start) =~= cs@.subrange(start as int, i + 1));
                if forall|j: int| 0 <= j < body.len() ==> is_digit(#[trigger] body[j]) {
                    lemma_digits_value_grows(body, i + 1 - start);
                }
                assert(parse_digits(body) is None);
            }
            return None;
        }
        value = value * 10 + d;
        i = i + 1;
    }
    proof {
        assert(cs@.subrange(start as int, b as int) == body);
        assert forall|j: int| 0 <= j < body.len() implies is_digit(#[trigger] body[j]) by {
            assert(body[j] == cs@[start + j]);
        }
    }
    Some(value)
}

/// The pieces of `s` between `sep` characters, as character ranges.
fn split_ranges(cs: &[char], sep: char) -> (r: Vec<(usize, usize)>)
    ensures
        r@.len() == split_on(cs@, sep).len(),
        forall|k: int| 0 <= k < r@.len() ==> (#[trigger] r@[k]).0 <= r@[k].1 && r@[k].1 <= cs@.len(),
            forall|k: int| 0 <= k < r@.len() ==> cs@.subrange(r@[k].0 as int, r@[k].1 as int) == #[trigger] split_on(cs@, sep)[k],
{
    let n = cs.len();
    let mut out: Vec<(usize, usize)> = Vec::new();
    let mut seg: usize = 0;
    let mut i: usize = 0;
    let ghost mut done: Seq<Seq<char>> = Seq::empty();
    proof {
        assert(cs@.subrange(0, n as int) =~= cs@);
    }
    while i < n
        invariant
            seg <= i <= n == cs@.len(),
            forall|j: int| seg <= j < i ==> cs@[j] != sep,
            done + split_on(cs@.subrange(seg as int, n as int), sep) == split_on(cs@, sep),
            out@.len() == done.len(),
            forall|k: int| 0 <= k < out@.len() ==> (#[trigger] out@[k]).0 <= out@[k].1 && out@[k].1 <= cs@.len(),
            forall|k: int| 0 <= k < out@.len() ==> cs@.subrange(out@[k].0 as int, out@[k].1 as int) == #[trigger] done[k],
        decreases n - i,
    {
        if cs[i] == sep {
            proof {
                let rest = cs@.subrange(seg as int, n as int);
                let p = i - seg;
                assert(rest.subrange(p, p + 1) =~= seq![sep]);
                assert forall|j: int| 0 <= j < p implies !crate::text::occurs_at(rest, seq![sep], j) by {
                    assert(rest.subrange(j, j + 1)[0] == cs@[seg + j]);
                }
                assert(is_first_occurrence_from(rest, seq![sep], 0, p));
                lemma_first_from(rest, seq![sep], 0);
                assert(rest.subrange(0, p) =~= cs@.subrange(seg as int, i as int));
                assert(rest.subrange(p + 1, rest.len() as int) =~= cs@.subrange(i + 1, n as int));
                assert(split_on(rest, sep) == seq![cs@.subrange(seg as int, i as int)] + split_on(cs@.subrange(i + 1, n as int), sep));
                assert((done.push(cs@.subrange(seg as int, i as int))) + split_on(cs@.subrange(i + 1, n as int), sep)
                    =~= done + split_on(rest, sep));
            }
            let ghost out0 = out@;
            let ghost done0 = done;
            out.push((seg, i));
            proof {
                done = done.push(cs@.subrange(seg as int, i as int));
                assert forall|k: int| 0 <= k < out@.len() implies out@[k].0 <= out@[k].1 && out@[k].1 <= cs@.len() && cs@.subrange(
                    out@[k].0 as int,
                    out@[k].1 as int,
                ) == #[trigger] done[k] by {
                    if k < out0.len() {
                        assert(out@[k] == out0[k]);
                        assert(done[k] == done0[k]);
                    }
                }
            }
            seg = i + 1;
        }
        i = i + 1;
    }
    proof {
        let rest = cs@.subrange(seg as int, n as int);
        assert forall|j: int| 0 <= j implies !crate::text::occurs_at(rest, seq![sep], j) by {
            if crate::text::occurs_at(rest, seq![sep], j) {
                assert(rest.subrange(j, j + 1)[0] == cs@[seg + j]);
            }
        }
        lemma_first_from(rest, seq![sep], 0);
        assert(split_on(rest, sep) == seq![rest]);
    }
    let ghost out0 = out@;
    let ghost done0 = done;
    out.push((seg, n));
    proof {
        done = done.push(cs@.subrange(seg as int, n as int));
        assert(done0 + seq![cs@.subrange(seg as int, n as int)] =~= done);
        assert(done == split_on(cs@, sep));
        assert forall|k: int| 0 <= k < out@.len() implies out@[k].0 <= out@[k].1 && out@[k].1 <= cs@.len() && cs@.subrange(
            out@[k].0 as int,
            out@[k].1 as int,
        ) == #[trigger] split_on(cs@, sep)[k] by {
            if k < out0.len() {
                assert(out@[k] == out0[k]);
                assert(done[k] == done0[k]);
            }
        }
    }
    out
}

fn version_parts(v: &str) -> (r: (u64, u64, u64))
    ensures
        r.0 == version_part(v@, 0),
        r.1 == version_part(v@, 1),
        r.2 == version_part(v@, 2),
{
    let cs = chars_of(v);
    let ranges = split_ranges(cs.as_slice(), '.');
    let mut parts: [u64; 3] = [0, 0, 0];
    let mut k: usize = 0;
    while k < 3 && k < ranges.len()
        invariant
            k <= 3,
            k <= ranges@.len(),
            ranges@.len() == split_on(cs@, '.').len(),
            forall|m: int| 0 <= m < ranges@.len() ==> (#[trigger] ranges@[m]).0 <= ranges@[m].1 && ranges@[m].1 <= cs@.len(),
            forall|m: int| 0 <= m < ranges@.len() ==> cs@.subrange(ranges@[m].0 as int, ranges@[m].1 as int) == #[trigger] split_on(cs@, '.')[m],
            cs@ == v@,
            forall|m: int| 0 <= m < k ==> parts[m] == version_part(v@, m),
            forall|m: int| k <= m < 3 ==> parts[m] == 0,
        decreases 3 - k,
    {
        let (a, b) = ranges[k];
        assert(cs@.subrange(a as int, b as int) == split_on(cs@, '.')[k as int]);
        let value = match parse_u64_chars(cs.as_slice(), a, b) {
            Some(x) => x,
            None => 0,
        };
        parts[k] = value;
        k = k + 1;
    }
    (parts[0], parts[1], parts[2])
}

/// Whether version `left` is later than `right`, comparing the numeric
/// (major, minor, patch) components.
pub fn semver_gt(left: &str, right: &str) -> (r: bool)
    ensures
        r == spec_semver_gt(left@, right@),
{
    let (a0, a1, a2) = version_parts(left);
    let (b0, b1, b2) = version_parts(right);
    a0 > b0 || (a0 == b0 && (a1 > b1 || (a1 == b1 && a2 > b2)))
}

#[verifier::external_type_specification]
#[verifier::external_body]
pub struct ExRegex(regex::Regex);

/// Whether `pattern` is a regular expression the `regex` crate accepts.
pub uninterp spec fn regex_accepts(pattern: Seq<char>) -> bool;

/// A regular expression compiled by the `regex` crate, with the pattern it
/// was compiled from.
#[derive(Debug)]
pub struct CompiledRegex {
    pattern: String,
    re: regex::Regex,
}

impl CompiledRegex {
    /// The pattern this expression was compiled from.
    pub closed spec fn pattern(&self) -> Seq<char> {
        self.pattern@
    }
}

/// The byte spans of the successive non-overlapping matches of `pattern`
/// in `text`, as the `regex` crate finds them.
pub uninterp spec fn regex_spans(pattern: Seq<char>, text: Seq<char>) -> Seq<(usize, usize)>;

/// Whether `pattern` matches somewhere in `text`, as the `regex` crate
/// decides it.
pub uninterp spec fn regex_matches(pattern: Seq<char>, text: Seq<char>) -> bool;

/// `regex::Regex::new`: compiles a pattern; the error is rendered as text.
/// Whether compilation succeeds depends on the pattern alone.
#[verifier::external_body]
pub(crate) fn regex_new(pattern: &str) -> (r: Result<CompiledRegex, String>)
    ensures
        r is Ok <==> regex_accepts(pattern@),
        r matches Ok(c) ==> c.pattern() == pattern@,
{
    match regex::Regex::new(pattern) {
        Ok(re) => Ok(CompiledRegex { pattern: pattern.to_string(), re }),
        Err(error) => Err(error.to_string()),
    }
}

/// Byte spans inside `text`, in order and not overlapping, each starting
/// and ending on character boundaries.
pub open spec fn spans_well_formed(spans: Seq<(usize, usize)>, text: Seq<u8>) -> bool {
    &&& forall|i: int|
        0 <= i < spans.len() ==> (#[trigger] spans[i]).0 <= spans[i].1 && spans[i].1 <= text.len()
            && is_char_boundary(text, spans[i].0 as int) && is_char_boundary(text, spans[i].1 as int)
    &&& forall|i: int, j: int| 0 <= i < j < spans.len() ==> (#[trigger] spans[i]).1 <= (#[trigger] spans[j]).0
}

/// `regex::Regex::find_iter`: the successive non-overlapping matches, as
/// byte spans. Which text they cover is named (`regex_spans`); the contract
/// also states their documented shape (ordered, non-overlapping, on
/// character boundaries).
#[verifier::external_body]
fn regex_find_spans(re: &CompiledRegex, text: &str) -> (r: Vec<(usize, usize)>)
    ensures
        r@ == regex_spans(re.pattern(), text@),
        spans_well_formed(r@, sbytes(text)),
{
    re.re.find_iter(text).map(|m| (m.start(), m.end())).collect()
}

/// `regex::Regex::is_match`; the answer is named (`regex_matches`).
#[verifier::external_body]
pub(crate) fn regex_is_match(re: &CompiledRegex, text: &str) -> (r: bool)
    ensures
        r == regex_matches(re.pattern(), text@),
{
    re.re.is_match(text)
}

/// A rule ready to run: its definition and compiled regular expressions.
#[derive(Debug)]
pub struct CompiledRule {
    pub def: Rule,
    compiled_regex: Option<CompiledRegex>,
    compiled_not_regex: Option<CompiledRegex>,
}

/// Number of line feeds in `b`.
pub open spec fn count_newlines(b: Seq<u8>) -> nat
    decreases b.len(),
{
    if b.len() == 0 {
        0
    } else {
        count_newlines(b.drop_last()) + (if b.last() == 10u8 { 1nat } else { 0 })
    }
}

/// The 1-based line and character column of byte `byte` of the source.
pub open spec fn spec_line_column(source: Seq<u8>, byte: int) -> (nat, nat) {
    let k = if byte < source.len() { byte } else { source.len() as int };
    let prefix = source.subrange(0, k);
    (count_newlines(prefix) + 1, decode_utf8(source.subrange(line_start(source, k), k)).len() + 1)
}

proof fn lemma_count_newlines_bound(b: Seq<u8>)
    ensures
        count_newlines(b) <= b.len(),
    decreases b.len(),
{
    if b.len() > 0 {
        lemma_count_newlines_bound(b.drop_last());
    }
}

/// The line and column (in characters, both 1-based) of a byte offset.
pub fn line_column(source: &str, byte: usize) -> (r: (usize, usize))
    requires
        byte >= sbytes(source).len() || is_char_boundary(sbytes(source), byte as int),
        sbytes(source).len() < usize::MAX,
    ensures
        r.0 == spec_line_column(sbytes(source), byte as int).0,
        r.1 == spec_line_column(sbytes(source), byte as int).1,
        r.1 <= (if byte < sbytes(source).len() { byte as int } else { sbytes(source).len() as int }) + 1,
{
    let bytes = source.as_bytes();
    let ghost b = sbytes(source);
    let n = bytes.len();
    let k = if byte < n { byte } else { n };
    let mut lines: usize = 0;
    let mut i: usize = 0;
    while i < k
        invariant
            i <= k <= n == b.len(),
            n < usize::MAX,
            bytes@ == b,
            lines == count_newlines(b.subrange(0, i as int)),
            lines <= i,
        decreases k - i,
    {
        proof {
            assert(b.subrange(0, i + 1).drop_last() =~= b.subrange(0, i as int));
        }
        if bytes[i] == 10u8 {
            lines = lines + 1;
        }
        i = i + 1;
    }
    let mut start = k;
    while start > 0 && bytes[start - 1] != 10u8
        invariant
            start <= k <= n == b.len(),
            bytes@ == b,
            line_start(b, start as int) == line_start(b, k as int),
        decreases start,
    {
        start = start - 1;
    }
    proof {
        encode_utf8_valid_utf8(source@);
        is_char_boundary_start_end_of_seq(b);
        if start > 0 {
            crate::text::lemma_ascii_boundaries(b, start - 1);
        }
    }
    let tail = match text_of(source, start, k) {
        Some(t) => t,
        None => {
            proof {
                assert(false);
            }
            ""
        },
    };
    let cs = chars_of(tail);
    proof {
        encode_utf8_decode_utf8(tail@);
        lemma_line_start_bounds(b, k as int);
        assert(cs@.len() <= sbytes(tail).len()) by {
            lemma_char_count_bound(tail@);
        }
    }
    (lines + 1, cs.len() + 1)
}

proof fn lemma_line_start_bounds(b: Seq<u8>, k: int)
    requires
        0 <= k <= b.len(),
    ensures
        0 <= line_start(b, k) <= k,
    decreases k,
{
    if k > 0 && b[k - 1] != 10u8 {
        lemma_line_start_bounds(b, k - 1);
    }
}

proof fn lemma_char_count_bound(cs: Seq<char>)
    ensures
        cs.len() <= encode_utf8(cs).len(),
    decreases cs.len(),
{
    if cs.len() > 0 {
        lemma_char_count_bound(cs.drop_first());
        assert(encode_scalar(cs[0] as u32).len() >= 1);
    }
}

/// The recommendation a pattern finding carries: the rule's own, or else
/// its suggested fix.
pub open spec fn pattern_recommendation(rule: Rule) -> Option<Seq<char>> {
    match rule.recommendation {
        Some(r) => Some(r@),
        None => match rule.pattern {
            Some(p) => match p.fix {
                Some(f) => Some("Suggested fix: "@ + f@),
                None => None,
            },
            None => None,
        },
    }
}

/// The first language a rule declares.
pub open spec fn first_language(rule: Rule) -> Option<Language> {
    if rule.languages@.len() > 0 {
        Some(rule.languages@[0])
    } else {
        None
    }
}

/// `f` is the finding of pattern rule `rule` for the match at `span` of the
/// file at `path`.
pub open spec fn pattern_finding(f: Finding, rule: Rule, source: Seq<u8>, path: Seq<char>, span: (usize, usize)) -> bool {
    let (line, column) = spec_line_column(source, span.0 as int);
    &&& f.rule_id@ == rule.id@
    &&& f.rule_name@ == rule.name@
    &&& f.message@ == rule.name@
    &&& f.severity == rule.severity
    &&& f.confidence == rule.confidence
    &&& opt_text(f.description) == Some(rule.description@)
    &&& opt_text(f.code_snippet) == Some(spec_line_text(source, span.0 as int))
    &&& opt_text(f.recommendation) == pattern_recommendation(rule)
    &&& opt_text(f.category) == opt_text(rule.category)
    &&& f.language == first_language(rule)
    &&& opt_text(f.cwe) == opt_text(rule.cwe)
    &&& opt_text(f.owasp) == opt_text(rule.owasp)
    &&& opt_text(f.framework) == opt_text(rule.framework)
    &&& f.location.path@ == path
    &&& f.location.start_byte == span.0
    &&& f.location.end_byte == span.1
    &&& f.location.start_line == line
    &&& f.location.start_column == column
    &&& f.location.end_line == line
    &&& f.location.end_column == column + (span.1 - span.0)
    &&& f.fingerprint@ == spec_fingerprint(rule.id@, path, line, column)
}

/// The spans whose exclusion flag is off, in order.
pub open spec fn kept(spans: Seq<(usize, usize)>, excluded: Seq<bool>) -> Seq<(usize, usize)>
    decreases spans.len(),
{
    if spans.len() == 0 {
        Seq::empty()
    } else {
        let prev = kept(spans.drop_last(), excluded.subrange(0, spans.len() - 1));
        if excluded[spans.len() - 1] {
            prev
        } else {
            prev.push(spans.last())
        }
    }
}

/// `fs` are the pattern findings of `rule` for the spans `ss`, in order.
pub open spec fn pattern_findings(fs: Seq<Finding>, rule: Rule, source: Seq<u8>, path: Seq<char>, ss: Seq<(usize, usize)>) -> bool {
    fs.len() == ss.len() && forall|i: int| 0 <= i < ss.len() ==> #[trigger] pattern_finding(fs[i], rule, source, path, ss[i])
}

/// The pattern a rule declares.
pub open spec fn declared_pattern(def: Rule) -> Option<Seq<char>> {
    match def.pattern {
        Some(p) => Some(p.regex@),
        None => None,
    }
}

/// The exclusion pattern a rule declares.
pub open spec fn declared_exclusion(def: Rule) -> Option<Seq<char>> {
    match def.pattern {
        Some(p) => match p.not_regex {
            Some(n) => Some(n@),
            None => None,
        },
        None => None,
    }
}

/// The text of the lines a span of `source` touches.
pub open spec fn span_lines_text(source: Seq<u8>, span: (usize, usize)) -> Seq<char> {
    decode_utf8(source.subrange(line_start(source, span.0 as int), line_stop(source, span.1 as int)))
}

/// Which matches the exclusion pattern drops: those whose lines it matches.
pub open spec fn exclusion_flags(exclude: Option<Seq<char>>, source: Seq<u8>, spans: Seq<(usize, usize)>) -> Seq<bool> {
    Seq::new(
        spans.len(),
        |i: int|
            match exclude {
                Some(n) => regex_matches(n, span_lines_text(source, spans[i])),
                None => false,
            },
    )
}

/// `r` is what pattern rule `rule` reports on `source`: a finding for each
/// match of its pattern, in order, except the matches whose lines its
/// exclusion pattern matches; nothing for a rule without a pattern.
pub open spec fn pattern_run(rule: CompiledRule, r: Seq<Finding>, source: &str, path: Seq<char>) -> bool {
    match rule.run_pattern() {
        None => r.len() == 0,
        Some(p) => pattern_findings(
            r,
            rule.definition(),
            sbytes(source),
            path,
            kept(regex_spans(p, source@), exclusion_flags(rule.exclude_pattern(), sbytes(source), regex_spans(p, source@))),
        ),
    }
}

impl CompiledRule {
    /// The rule's definition.
    pub closed spec fn definition(&self) -> Rule {
        self.def
    }

    /// Whether the rule runs a pattern.
    pub closed spec fn has_pattern(&self) -> bool {
        self.compiled_regex is Some
    }

    /// The pattern the rule runs, as compiled.
    pub closed spec fn run_pattern(&self) -> Option<Seq<char>> {
        match self.compiled_regex {
            Some(c) => Some(c.pattern()),
            None => None,
        }
    }

    /// The exclusion pattern the rule applies to its matches, as compiled.
    pub closed spec fn exclude_pattern(&self) -> Option<Seq<char>> {
        match self.compiled_not_regex {
            Some(c) => Some(c.pattern()),
            None => None,
        }
    }

    /// Compiles a loaded rule, materializing its regular expressions; when
    /// one does not compile, the rule comes back with the reason.
    pub fn compile(def: Rule) -> (r: Result<CompiledRule, (Rule, String)>)
        ensures
            match r {
                Ok(c) => c.definition() == def && (c.has_pattern() <==> def.pattern is Some) && (def.pattern matches Some(
                    p,
                ) ==> regex_accepts(p.regex@) && (p.not_regex matches Some(n) ==> regex_accepts(n@)))
                    && c.has_pattern() == c.run_pattern() is Some && c.run_pattern() == declared_pattern(def)
                    && c.exclude_pattern() == declared_exclusion(def),
                Err((d, _)) => d == def && (def.pattern matches Some(p) && (!regex_accepts(p.regex@) || (
                p.not_regex matches Some(n) && !regex_accepts(n@)))),
            },
    {
        let run_result: Option<Result<CompiledRegex, String>> = match &def.pattern {
            Some(pattern) => Some(regex_new(pattern.regex.as_str())),
            None => None,
        };
        let run_regex = match run_result {
            Some(Ok(re)) => Some(re),
            Some(Err(error)) => {
                let mut message = "invalid pattern regex: ".to_owned();
                push_str(&mut message, error.as_str());
                return Err((def, message));
            },
            None => None,
        };
        let not_result: Option<Result<CompiledRegex, String>> = match &def.pattern {
            Some(pattern) => match &pattern.not_regex {
                Some(not) => Some(regex_new(not.as_str())),
                None => None,
            },
            None => None,
        };
        let not_regex = match not_result {
            Some(Ok(re)) => Some(re),
            Some(Err(error)) => {
                let mut message = "invalid not-regex: ".to_owned();
                push_str(&mut message, error.as_str());
                return Err((def, message));
            },
            None => None,
        };
        Ok(CompiledRule { def, compiled_regex: run_regex, compiled_not_regex: not_regex })
    }

    pub fn id(&self) -> (r: &str)
        ensures
            r@ == self.definition().id@,
    {
        self.def.id.as_str()
    }

    pub fn languages(&self) -> (r: &[Language])
        ensures
            r@ == self.definition().languages@,
    {
        self.def.languages.as_slice()
    }

    pub fn severity(&self) -> (r: Severity)
        ensures
            r == self.definition().severity,
    {
        self.def.severity
    }

    /// The first declared language.
    pub fn primary_language(&self) -> (r: Option<Language>)
        ensures
            r == first_language(self.definition()),
    {
        if self.def.languages.len() > 0 {
            Some(self.def.languages[0])
        } else {
            None
        }
    }

    /// The finding of this rule for the match at `span`.
    fn finding_at(&self, source: &str, path: &str, span: (usize, usize)) -> (r: Finding)
        requires
            span.0 <= span.1 <= sbytes(source).len(),
            is_char_boundary(sbytes(source), span.0 as int),
            sbytes(source).len() < usize::MAX,
        ensures
            pattern_finding(r, self.def, sbytes(source), path@, span),
    {
        let (start, end) = span;
        let (line, column) = line_column(source, start);
        let location = SourceLocation {
            path: path.to_owned(),
            start_byte: start,
            end_byte: end,
            start_line: line,
            start_column: column,
            end_line: line,
            end_column: column + (end - start),
        };
        let snippet = line_text(source, start);
        let mut finding = Finding::new(self.def.id.as_str(), self.def.severity, self.def.name.as_str(), location)
            .with_confidence(self.def.confidence)
            .with_rule_name(self.def.name.as_str())
            .with_description(self.def.description.as_str())
            .with_code_snippet(snippet.as_str());
        match &self.def.recommendation {
            Some(recommendation) => {
                finding = finding.with_recommendation(recommendation.as_str());
            },
            None => {
                match &self.def.pattern {
                    Some(p) => match &p.fix {
                        Some(fix) => {
                            let mut text = "Suggested fix: ".to_owned();
                            push_str(&mut text, fix.as_str());
                            finding = finding.with_recommendation(text.as_str());
                        },
                        None => {},
                    },
                    None => {},
                }
            },
        }
        if let Some(category) = &self.def.category {
            finding = finding.with_category(category.as_str());
        }
        if let Some(lang) = self.primary_language() {
            finding = finding.with_language(lang);
        }
        if let Some(cwe) = &self.def.cwe {
            finding = finding.with_cwe(cwe.as_str());
        }
        if let Some(owasp) = &self.def.owasp {
            finding = finding.with_owasp(owasp.as_str());
        }
        if let Some(framework) = &self.def.framework {
            finding = finding.with_framework(framework.as_str());
        }
        finding
    }
}

/// The text of the lines a span touches: from the start of the line holding
/// its start to the end of the line holding its end.
fn span_lines<'s>(source: &'s str, start: usize, end: usize) -> (r: &'s str)
    requires
        start <= end <= sbytes(source).len(),
    ensures
        sbytes(r) == sbytes(source).subrange(
            line_start(sbytes(source), start as int),
            line_stop(sbytes(source), end as int),
        ),
{
    let bytes = source.as_bytes();
    let ghost b = sbytes(source);
    let n = bytes.len();
    let mut a = start;
    while a > 0 && bytes[a - 1] != 10u8
        invariant
            a <= start <= n == b.len(),
            bytes@ == b,
            line_start(b, a as int) == line_start(b, start as int),
        decreases a,
    {
        a = a - 1;
    }
    let mut z = end;
    while z < n && bytes[z] != 10u8
        invariant
            end <= z <= n == b.len(),
            bytes@ == b,
            line_stop(b, z as int) == line_stop(b, end as int),
        decreases n - z,
    {
        z = z + 1;
    }
    proof {
        encode_utf8_valid_utf8(source@);
        is_char_boundary_start_end_of_seq(b);
        if a > 0 {
            crate::text::lemma_ascii_boundaries(b, a - 1);
        }
        if z < n {
            crate::text::lemma_ascii_boundaries(b, z as int);
        }
    }
    match text_of(source, a, z) {
        Some(t) => t,
        None => {
            proof {
                assert(false);
            }
            ""
        },
    }
}

impl CompiledRule {
    /// The findings of this pattern rule for the regex matches `spans` of
    /// `source`, leaving out those whose exclusion flag is set.
    pub fn findings_at(&self, source: &str, path: &str, spans: &[(usize, usize)], excluded: &[bool]) -> (r: Vec<
        Finding,
    >)
        requires
            spans_well_formed(spans@, sbytes(source)),
            excluded@.len() == spans@.len(),
            sbytes(source).len() < usize::MAX,
        ensures
            pattern_findings(r@, self.definition(), sbytes(source), path@, kept(spans@, excluded@)),
    {
        let mut out: Vec<Finding> = Vec::new();
        let mut i: usize = 0;
        proof {
            assert(kept(spans@.subrange(0, 0), excluded@.subrange(0, 0)) =~= Seq::<(usize, usize)>::empty());
        }
        while i < spans.len()
            invariant
                i <= spans@.len() == excluded@.len(),
                spans_well_formed(spans@, sbytes(source)),
                sbytes(source).len() < usize::MAX,
                pattern_findings(
                    out@,
                    self.definition(),
                    sbytes(source),
                    path@,
                    kept(spans@.subrange(0, i as int), excluded@.subrange(0, i as int)),
                ),
            decreases spans@.len() - i,
        {
            let ghost before = kept(spans@.subrange(0, i as int), excluded@.subrange(0, i as int));
            proof {
                let sub = spans@.subrange(0, i + 1);
                assert(sub.drop_last() =~= spans@.subrange(0, i as int));
                assert(excluded@.subrange(0, i + 1).subrange(0, i as int) =~= excluded@.subrange(0, i as int));
                assert(sub.last() == spans@[i as int]);
                assert(excluded@.subrange(0, i + 1)[i as int] == excluded@[i as int]);
            }
            if !excluded[i] {
                let span = spans[i];
                proof {
                    assert(spans@[i as int].0 <= spans@[i as int].1);
                }
                let f = self.finding_at(source, path, span);
                let ghost prev = out@;
                out.push(f);
                proof {
                    let now = kept(spans@.subrange(0, i + 1), excluded@.subrange(0, i + 1));
                    assert(now == before.push(span));
                    assert forall|k: int| 0 <= k < now.len() implies #[trigger] pattern_finding(
                        out@[k],
                        self.definition(),
                        sbytes(source),
                        path@,
                        now[k],
                    ) by {
                        if k < prev.len() {
                            assert(out@[k] == prev[k]);
                            assert(now[k] == before[k]);
                        }
                    }
                }
            }
            i = i + 1;
        }
        proof {
            assert(spans@.subrange(0, spans@.len() as int) =~= spans@);
            assert(excluded@.subrange(0, excluded@.len() as int) =~= excluded@);
        }
        out
    }

    /// Runs the rule over a source text: each match of the pattern whose
    /// lines the exclusion pattern does not match becomes a finding. Rules
    /// without a pattern report nothing here.
    pub fn check(&self, source: &str, path: &str) -> (r: Vec<Finding>)
        requires
            sbytes(source).len() < usize::MAX,
        ensures
            pattern_run(*self, r@, source, path@),
    {
        let run = match &self.compiled_regex {
            Some(run) => run,
            None => {
                return Vec::new();
            },
        };
        let spans = regex_find_spans(run, source);
        let ghost flags = exclusion_flags(self.exclude_pattern(), sbytes(source), spans@);
        let mut excluded: Vec<bool> = Vec::new();
        let mut i: usize = 0;
        while i < spans.len()
            invariant
                i <= spans@.len(),
                excluded@.len() == i,
                spans_well_formed(spans@, sbytes(source)),
                flags == exclusion_flags(self.exclude_pattern(), sbytes(source), spans@),
                forall|k: int| 0 <= k < i ==> excluded@[k] == flags[k],
            decreases spans@.len() - i,
        {
            let (start, end) = spans[i];
            assert(spans@[i as int].0 <= spans@[i as int].1);
            let skip = match &self.compiled_not_regex {
                Some(not) => {
                    let lines = span_lines(source, start, end);
                    proof {
                        vstd::utf8::encode_utf8_decode_utf8(lines@);
                    }
                    regex_is_match(not, lines)
                },
                None => false,
            };
            excluded.push(skip);
            i = i + 1;
        }
        assert(excluded@ =~= flags);
        self.findings_at(source, path, spans.as_slice(), excluded.as_slice())
    }

    /// Runs the rule against a source string (no parsing).
    pub fn check_source(&self, source: &str, path: &str) -> (r: Vec<Finding>)
        requires
            sbytes(source).len() < usize::MAX,
        ensures
            pattern_run(*self, r@, source, path@),
    {
        self.check(source, path)
    }
}

/// Loaded packs and their compiled rules, in load order.
#[derive(Debug, Default)]
pub struct PackRegistry {
    pub packs: Vec<(PackMeta, Vec<CompiledRule>)>,
}

/// The (id, source) of every loaded rule, pack by pack, in order.
pub open spec fn rule_entries(packs: Seq<(PackMeta, Vec<CompiledRule>)>) -> Seq<(Seq<char>, Seq<char>)>
    decreases packs.len(),
{
    if packs.len() == 0 {
        Seq::empty()
    } else {
        rule_entries(packs.drop_last()) + packs.last().1@.map_values(
            |r: CompiledRule| (r.definition().id@, r.definition().source@),
        )
    }
}

/// The rules of all packs, pack by pack, in order.
pub open spec fn all_rules(packs: Seq<(PackMeta, Vec<CompiledRule>)>) -> Seq<CompiledRule>
    decreases packs.len(),
{
    if packs.len() == 0 {
        Seq::empty()
    } else {
        all_rules(packs.drop_last()) + packs.last().1@
    }
}

/// The source of the last entry with id `id`.
pub open spec fn last_source(entries: Seq<(Seq<char>, Seq<char>)>, id: Seq<char>) -> Option<Seq<char>>
    decreases entries.len(),
{
    if entries.len() == 0 {
        None
    } else if entries.last().0 == id {
        Some(entries.last().1)
    } else {
        last_source(entries.drop_last(), id)
    }
}

/// Whether a rule's regular expressions compile.
pub open spec fn rule_compiles(rule: Rule) -> bool {
    rule.pattern matches Some(p) ==> regex_accepts(p.regex@) && (p.not_regex matches Some(n) ==> regex_accepts(
        n@,
    ))
}

/// The rules of `rules` before position `k` compile and bring no id that is
/// already known (to `entries` or to an earlier rule).
pub open spec fn loads_cleanly(entries: Seq<(Seq<char>, Seq<char>)>, rules: Seq<Rule>, k: int) -> bool {
    forall|j: int|
        0 <= j < k ==> rule_compiles(#[trigger] rules[j]) && last_source(
            entries + rules.subrange(0, j).map_values(|r: Rule| (r.id@, r.source@)),
            rules[j].id@,
        ) is None
}

fn find_source(reg: &PackRegistry, extra: &Vec<CompiledRule>, id: &String) -> (r: Option<String>)
    ensures
        match r {
            Some(s) => last_source(
                rule_entries(reg.packs@) + extra@.map_values(|c: CompiledRule| (c.definition().id@, c.definition().source@)),
                id@,
            ) == Some(s@),
            None => last_source(
                rule_entries(reg.packs@) + extra@.map_values(|c: CompiledRule| (c.definition().id@, c.definition().source@)),
                id@,
            ) is None,
        },
{
    let ghost all = rule_entries(reg.packs@) + extra@.map_values(
        |c: CompiledRule| (c.definition().id@, c.definition().source@),
    );
    let mut k = extra.len();
    proof {
        assert(extra@.subrange(0, k as int) =~= extra@);
    }
    while k > 0
        invariant
            k <= extra@.len(),
            all == rule_entries(reg.packs@) + extra@.map_values(
                |c: CompiledRule| (c.definition().id@, c.definition().source@),
            ),
            last_source(all, id@) == last_source(
                rule_entries(reg.packs@) + extra@.subrange(0, k as int).map_values(
                    |c: CompiledRule| (c.definition().id@, c.definition().source@),
                ),
                id@,
            ),
        decreases k,
    {
        let ghost cur = rule_entries(reg.packs@) + extra@.subrange(0, k as int).map_values(
            |c: CompiledRule| (c.definition().id@, c.definition().source@),
        );
        proof {
            assert(cur.drop_last() =~= rule_entries(reg.packs@) + extra@.subrange(0, k - 1).map_values(
                |c: CompiledRule| (c.definition().id@, c.definition().source@),
            ));
            assert(cur.last() == (extra@[k - 1].definition().id@, extra@[k - 1].definition().source@));
        }
        if extra[k - 1].def.id == *id {
            return Some(extra[k - 1].def.source.clone());
        }
        k = k - 1;
    }
    let mut p = reg.packs.len();
    proof {
        assert(extra@.subrange(0, 0).map_values(|c: CompiledRule| (c.definition().id@, c.definition().source@))
            =~= Seq::<(Seq<char>, Seq<char>)>::empty());
        assert(rule_entries(reg.packs@) + Seq::<(Seq<char>, Seq<char>)>::empty() =~= rule_entries(reg.packs@));
        assert(reg.packs@.subrange(0, p as int) =~= reg.packs@);
    }
    while p > 0
        invariant
            p <= reg.packs@.len(),
            all == rule_entries(reg.packs@) + extra@.map_values(
                |c: CompiledRule| (c.definition().id@, c.definition().source@),
            ),
            last_source(all, id@) == last_source(rule_entries(reg.packs@.subrange(0, p as int)), id@),
        decreases p,
    {
        let rules = &reg.packs[p - 1].1;
        let ghost head = rule_entries(reg.packs@.subrange(0, p - 1));
        let ghost tail = rules@.map_values(|c: CompiledRule| (c.definition().id@, c.definition().source@));
        proof {
            let sub = reg.packs@.subrange(0, p as int);
            assert(sub.drop_last() =~= reg.packs@.subrange(0, p - 1));
            assert(rule_entries(sub) == head + tail);
        }
        let mut q = rules.len();
        proof {
            assert(tail.subrange(0, q as int) =~= tail);
        }
        while q > 0
            invariant
                q <= rules@.len(),
                all == rule_entries(reg.packs@) + extra@.map_values(
                    |c: CompiledRule| (c.definition().id@, c.definition().source@),
                ),
                tail == rules@.map_values(|c: CompiledRule| (c.definition().id@, c.definition().source@)),
                last_source(all, id@) == last_source(head + tail.subrange(0, q as int), id@),
            decreases q,
        {
            proof {
                let cur = head + tail.subrange(0, q as int);
                assert(cur.drop_last() =~= head + tail.subrange(0, q - 1));
                assert(cur.last() == tail[q - 1]);
            }
            if rules[q - 1].def.id == *id {
                return Some(rules[q - 1].def.source.clone());
            }
            q = q - 1;
        }
        proof {
            assert(head + tail.subrange(0, 0) =~= head);
        }
        p = p - 1;
    }
    proof {
        assert(reg.packs@.subrange(0, 0) =~= Seq::<(PackMeta, Vec<CompiledRule>)>::empty());
    }
    None
}

/// Whether a pack's name is one of `wanted`.
pub open spec fn is_wanted(wanted: Seq<String>, p: (PackMeta, Vec<CompiledRule>)) -> bool {
    exists|k: int| 0 <= k < wanted.len() && wanted[k]@ == p.0.name@
}

impl PackRegistry {
    pub fn new() -> (r: PackRegistry)
        ensures
            r.packs@.len() == 0,
    {
        PackRegistry { packs: Vec::new() }
    }

    /// Keeps only the packs whose name is in `wanted`, in registry order;
    /// an empty `wanted` keeps everything.
    pub fn select_packs(&mut self, wanted: &[String])
        ensures
            wanted@.len() == 0 ==> final(self).packs@ == old(self).packs@,
            wanted@.len() > 0 ==> final(self).packs@ == old(self).packs@.filter(
                |p: (PackMeta, Vec<CompiledRule>)| is_wanted(wanted@, p),
            ),
    {
        if wanted.len() == 0 {
            return;
        }
        let ghost keep = |p: (PackMeta, Vec<CompiledRule>)| is_wanted(wanted@, p);
        let ghost old_packs = self.packs@;
        let mut packs: Vec<(PackMeta, Vec<CompiledRule>)> = Vec::new();
        std::mem::swap(&mut packs, &mut self.packs);
        let mut kept_packs: Vec<(PackMeta, Vec<CompiledRule>)> = Vec::new();
        let mut rest = packs;
        let ghost mut i: int = 0;
        let ghost total = rest@;
        proof {
            reveal(Seq::filter);
            assert(total.subrange(0, 0).filter(keep) =~= Seq::<(PackMeta, Vec<CompiledRule>)>::empty());
        }
        while rest.len() > 0
            invariant
                total == old_packs,
                keep == (|p: (PackMeta, Vec<CompiledRule>)| is_wanted(wanted@, p)),
                0 <= i,
                i + rest@.len() == total.len(),
                rest@ == total.subrange(i as int, total.len() as int),
                kept_packs@ == total.subrange(0, i as int).filter(keep),
                self.packs@.len() == 0,
            decreases rest@.len(),
        {
            let pack = rest.remove(0);
            let mut found = false;
            let mut k: usize = 0;
            while k < wanted.len()
                invariant
                    k <= wanted@.len(),
                    found == exists|m: int| 0 <= m < k && wanted@[m]@ == pack.0.name@,
                decreases wanted@.len() - k,
            {
                if wanted[k] == pack.0.name {
                    found = true;
                }
                k = k + 1;
            }
            proof {
                let sub = total.subrange(0, i + 1);
                assert(sub.drop_last() =~= total.subrange(0, i as int));
                assert(sub.last() == pack);
                reveal(Seq::filter);
                assert(sub.filter(keep) == (if keep(pack) { total.subrange(0, i as int).filter(keep).push(pack) } else { total.subrange(0, i as int).filter(keep) }));
                assert(found == keep(pack));
            }
            if found {
                kept_packs.push(pack);
            }
            proof {
                i = i + 1;
            }
            assert(rest@ =~= total.subrange(i as int, total.len() as int));
        }
        assert(total.subrange(0, total.len() as int) =~= total);
        self.packs = kept_packs;
    }

    /// Adds a pack loaded from `dir`: its rules are compiled in order; a rule
    /// that does not compile, or whose id is already known, stops the load
    /// and leaves the registry as it was.
    #[verifier::spinoff_prover]
    #[verifier::rlimit(40)]
    pub fn load_pack(&mut self, dir: &str, meta: PackMeta, rules: Vec<Rule>) -> (r: Result<(), PackError>)
        ensures
            match r {
                Ok(()) => loads_cleanly(rule_entries(old(self).packs@), rules@, rules@.len() as int)
                    && final(self).packs@.len() == old(self).packs@.len() + 1
                    && final(self).packs@.subrange(0, old(self).packs@.len() as int) == old(self).packs@
                    && final(self).packs@.last().0 == meta
                    && final(self).packs@.last().1@.map_values(|c: CompiledRule| c.definition()) == rules@,
                Err(PackError::DuplicateId { id, first, second }) => final(self).packs@ == old(self).packs@
                    && exists|k: int|
                    0 <= k < rules@.len() && loads_cleanly(rule_entries(old(self).packs@), rules@, k)
                        && rule_compiles(#[trigger] rules@[k]) && id@ == rules@[k].id@ && second@
                        == rules@[k].source@ && last_source(
                        rule_entries(old(self).packs@) + rules@.subrange(0, k).map_values(
                            |r: Rule| (r.id@, r.source@),
                        ),
                        rules@[k].id@,
                    ) == Some(first@),
                Err(PackError::Validate { message }) => final(self).packs@ == old(self).packs@
                    && exists|k: int|
                    0 <= k < rules@.len() && loads_cleanly(rule_entries(old(self).packs@), rules@, k)
                        && !rule_compiles(#[trigger] rules@[k]) && message@.subrange(
                        0,
                        ("rule '"@ + rules@[k].id@ + "' in '"@ + dir@ + "': "@).len() as int,
                    ) == "rule '"@ + rules@[k].id@ + "' in '"@ + dir@ + "': "@,
                Err(_) => false,
            },
    {
        let ghost base = rule_entries(self.packs@);
        let ghost rs = rules@;
        let mut compiled: Vec<CompiledRule> = Vec::new();
        let mut rest = rules;
        let ghost mut i: int = 0;
        proof {
            assert(compiled@.map_values(|c: CompiledRule| c.definition()) =~= rs.subrange(0, 0));
        }
        while rest.len() > 0
            invariant
                0 <= i,
                i + rest@.len() == rs.len(),
                rs == rules@,
                rest@ == rs.subrange(i as int, rs.len() as int),
                base == rule_entries(self.packs@),
                self.packs@ == old(self).packs@,
                compiled@.map_values(|c: CompiledRule| c.definition()) == rs.subrange(0, i as int),
                loads_cleanly(base, rs, i as int),
            decreases rest@.len(),
        {
            let rule = rest.remove(0);
            assert(rule == rs[i as int]);
            proof {
                assert(compiled@.map_values(|c: CompiledRule| (c.definition().id@, c.definition().source@))
                    =~= rs.subrange(0, i as int).map_values(|r: Rule| (r.id@, r.source@))) by {
                    assert forall|m: int| #![trigger compiled@[m]] 0 <= m < i implies compiled@.map_values(
                        |c: CompiledRule| (c.definition().id@, c.definition().source@),
                    )[m] == rs.subrange(0, i as int).map_values(|r: Rule| (r.id@, r.source@))[m] by {
                        assert(compiled@.map_values(|c: CompiledRule| c.definition())[m] == compiled@[m].definition());
                    }
                }
            }
            match CompiledRule::compile(rule) {
                Err((bad, message)) => {
                    let mut text = "rule '".to_owned();
                    crate::text::push_str(&mut text, bad.id.as_str());
                    crate::text::push_str(&mut text, "' in '");
                    crate::text::push_str(&mut text, dir);
                    crate::text::push_str(&mut text, "': ");
                    let ghost prefix = text@;
                    crate::text::push_str(&mut text, message.as_str());
                    proof {
                        assert(text@.subrange(0, prefix.len() as int) =~= prefix);
                        assert(bad == rs[i]);
                        assert(!rule_compiles(rs[i]));
                        assert(loads_cleanly(base, rs, i));
                    }
                    return Err(PackError::Validate { message: text });
                },
                Ok(c) => {
                    match find_source(self, &compiled, &c.def.id) {
                        Some(first) => {
                            proof {
                                assert(c.definition() == rs[i]);
                                assert(rule_compiles(rs[i]));
                                assert(loads_cleanly(base, rs, i));
                            }
                            return Err(
                                PackError::DuplicateId {
                                    id: c.def.id.clone(),
                                    first,
                                    second: c.def.source.clone(),
                                },
                            );
                        },
                        None => {
                            let ghost prev = compiled@;
                            compiled.push(c);
                            proof {
                                assert(compiled@.map_values(|x: CompiledRule| x.definition()) =~= rs.subrange(
                                    0,
                                    i + 1,
                                ));
                                assert forall|j: int| 0 <= j < i + 1 implies rule_compiles(#[trigger] rs[j])
                                    && last_source(
                                    base + rs.subrange(0, j).map_values(|r: Rule| (r.id@, r.source@)),
                                    rs[j].id@,
                                ) is None by {
                                    if j < i {
                                        assert(loads_cleanly(base, rs, i as int));
                                    }
                                }
                            }
                        },
                    }
                },
            }
            proof {
                i = i + 1;
            }
            assert(rest@ =~= rs.subrange(i as int, rs.len() as int));
        }
        assert(rs.subrange(0, rs.len() as int) =~= rs);
        let ghost before = self.packs@;
        self.packs.push((meta, compiled));
        assert(self.packs@.subrange(0, before.len() as int) =~= before);
        Ok(())
    }

    /// A registry of the given packs, compiled in order (see `compile_packs`).
    pub fn with_built_in(packs: Vec<(PackMeta, Vec<Rule>)>) -> (r: Result<PackRegistry, PackError>)
        ensures
            match r {
                Ok(reg) => packs_compile(packs@) && reg.packs@.len() == packs@.len() && forall|i: int|
                    0 <= i < packs@.len() ==> (#[trigger] reg.packs@[i]).0 == packs@[i].0 && reg.packs@[i].1@.map_values(
                        |c: CompiledRule| c.definition(),
                    ) == packs@[i].1@,
                Err(PackError::Validate { message }) => !packs_compile(packs@) && exists|i: int, k: int|
                    0 <= i < packs@.len() && 0 <= k < packs@[i].1@.len() && !rule_compiles(
                        #[trigger] packs@[i].1@[k],
                    ) && message@.subrange(0, compile_error_prefix("built-in rule"@, packs@[i].1@[k]).len() as int)
                        == compile_error_prefix("built-in rule"@, packs@[i].1@[k]),
                Err(_) => false,
            },
    {
        match compile_packs(packs) {
            Ok(compiled) => Ok(PackRegistry { packs: compiled }),
            Err(e) => Err(e),
        }
    }

    /// The rules of all packs, pack by pack, in order.
    pub fn iter(&self) -> (r: Vec<&CompiledRule>)
        ensures
            r@.map_values(|c: &CompiledRule| (c.definition().id@, c.definition().source@)) == rule_entries(self.packs@),
            forall|i: int| 0 <= i < r@.len() ==> in_packs(*(#[trigger] r@[i]), self.packs@),
            r@.map_values(|c: &CompiledRule| *c) == all_rules(self.packs@),
    {
        let mut out: Vec<&CompiledRule> = Vec::new();
        let mut p: usize = 0;
        proof {
            assert(self.packs@.subrange(0, 0) =~= Seq::<(PackMeta, Vec<CompiledRule>)>::empty());
            assert(out@.map_values(|c: &CompiledRule| (c.definition().id@, c.definition().source@)) =~= Seq::<(Seq<char>, Seq<char>)>::empty());
        }
        while p < self.packs.len()
            invariant
                p <= self.packs@.len(),
                out@.map_values(|c: &CompiledRule| (c.definition().id@, c.definition().source@)) == rule_entries(
                    self.packs@.subrange(0, p as int),
                ),
                forall|i: int| 0 <= i < out@.len() ==> in_packs(*(#[trigger] out@[i]), self.packs@),
                out@.map_values(|c: &CompiledRule| *c) == all_rules(self.packs@.subrange(0, p as int)),
            decreases self.packs@.len() - p,
        {
            let rules = &self.packs[p].1;
            let ghost head = out@.map_values(|c: &CompiledRule| (c.definition().id@, c.definition().source@));
            let ghost tail = rules@.map_values(|c: CompiledRule| (c.definition().id@, c.definition().source@));
            let ghost head2 = out@.map_values(|c: &CompiledRule| *c);
            let mut q: usize = 0;
            while q < rules.len()
                invariant
                    q <= rules@.len(),
                    p < self.packs@.len(),
                    rules == self.packs@[p as int].1,
                    out@.map_values(|c: &CompiledRule| *c) == head2 + rules@.subrange(0, q as int),
                    tail == rules@.map_values(|c: CompiledRule| (c.definition().id@, c.definition().source@)),
                    out@.map_values(|c: &CompiledRule| (c.definition().id@, c.definition().source@)) == head
                        + tail.subrange(0, q as int),
                    forall|i: int| 0 <= i < out@.len() ==> in_packs(*(#[trigger] out@[i]), self.packs@),
                decreases rules@.len() - q,
            {
                let ghost prev = out@;
                out.push(&rules[q]);
                proof {
                    assert(in_packs(self.packs@[p as int].1@[q as int], self.packs@));
                    assert forall|i: int| 0 <= i < out@.len() implies in_packs(*(#[trigger] out@[i]), self.packs@) by {
                        if i < prev.len() {
                            assert(out@[i] == prev[i]);
                        }
                    }
                }
                assert(out@.map_values(|c: &CompiledRule| (c.definition().id@, c.definition().source@)) =~= prev.map_values(
                    |c: &CompiledRule| (c.definition().id@, c.definition().source@),
                ).push(tail[q as int]));
                assert(out@.map_values(|c: &CompiledRule| *c) =~= prev.map_values(|c: &CompiledRule| *c).push(rules@[q as int]));
                q = q + 1;
                assert(out@.map_values(|c: &CompiledRule| (c.definition().id@, c.definition().source@)) =~= head
                    + tail.subrange(0, q as int));
                assert(out@.map_values(|c: &CompiledRule| *c) =~= head2 + rules@.subrange(0, q as int));
            }
            proof {
                let sub = self.packs@.subrange(0, p + 1);
                assert(sub.drop_last() =~= self.packs@.subrange(0, p as int));
                assert(sub.last() == self.packs@[p as int]);
                assert(tail.subrange(0, rules@.len() as int) =~= tail);
                assert(rules@.subrange(0, rules@.len() as int) =~= rules@);
            }
            p = p + 1;
        }
        assert(self.packs@.subrange(0, self.packs@.len() as int) =~= self.packs@);
        out
    }

    /// Every query rule's query is well formed.
    pub open spec fn queries_well_formed(&self) -> bool {
        forall|p: int, q: int|
            0 <= p < self.packs@.len() && 0 <= q < self.packs@[p].1@.len() ==> rule_query_ok(
                #[trigger] self.packs@[p].1@[q],
            )
    }

    /// Whether every query rule's query is well formed (see
    /// `crate::query::predicates_close`).
    pub fn check_queries(&self) -> (r: bool)
        ensures
            r == self.queries_well_formed(),
    {
        let mut p: usize = 0;
        while p < self.packs.len()
            invariant
                p <= self.packs@.len(),
                forall|pp: int, q: int|
                    0 <= pp < p && 0 <= q < self.packs@[pp].1@.len() ==> rule_query_ok(#[trigger] self.packs@[pp].1@[q]),
            decreases self.packs@.len() - p,
        {
            let rules = &self.packs[p].1;
            let mut q: usize = 0;
            while q < rules.len()
                invariant
                    p < self.packs@.len(),
                    rules == self.packs@[p as int].1,
                    q <= rules@.len(),
                    forall|pp: int, qq: int|
                        0 <= pp < p && 0 <= qq < self.packs@[pp].1@.len() ==> rule_query_ok(
                            #[trigger] self.packs@[pp].1@[qq],
                        ),
                    forall|qq: int| 0 <= qq < q ==> rule_query_ok(#[trigger] self.packs@[p as int].1@[qq]),
                decreases rules@.len() - q,
            {
                match &rules[q].def.query {
                    Some(query) => {
                        if !crate::query::predicates_close_exec(query.tree_sitter.as_str()) {
                            assert(!rule_query_ok(self.packs@[p as int].1@[q as int]));
                            return false;
                        }
                    },
                    None => {},
                }
                q = q + 1;
            }
            p = p + 1;
        }
        true
    }

    /// Whether `values_suffice_for` holds: runs the query of every query
    /// rule for `language` over the tree and evaluates its predicates.
    pub fn values_suffice_on(&self, tree: &crate::syntax::SyntaxTree, source: &str, language: Language) -> (r: bool)
        requires
            self.queries_well_formed(),
        ensures
            r == values_suffice_for(self.packs@, *tree, source@, language),
    {
        let rules = self.iter();
        let ghost all = all_rules(self.packs@);
        let mut j: usize = 0;
        while j < rules.len()
            invariant
                j <= rules@.len(),
                all == all_rules(self.packs@),
                rules@.map_values(|c: &CompiledRule| *c) == all,
                forall|i: int| 0 <= i < rules@.len() ==> in_packs(*(#[trigger] rules@[i]), self.packs@),
                self.queries_well_formed(),
                forall|k: int|
                    0 <= k < j && (#[trigger] all[k]).definition().languages@.contains(language) ==> rule_values_suffice(
                        all[k].definition(),
                        *tree,
                        source@,
                    ),
            decreases rules@.len() - j,
        {
            let rule = rules[j];
            let ghost c = *rule;
            proof {
                assert(all[j as int] == c);
                assert(in_packs(c, self.packs@));
                let (pp, qq) = choose|p: int, q: int|
                    0 <= p < self.packs@.len() && 0 <= q < self.packs@[p].1@.len() && #[trigger] self.packs@[p].1@[q] == c;
                assert(rule_query_ok(self.packs@[pp].1@[qq]));
            }
            let mut applies = false;
            let mut m: usize = 0;
            while m < rule.def.languages.len()
                invariant
                    m <= rule.def.languages@.len(),
                    applies == (exists|x: int| 0 <= x < m && #[trigger] rule.def.languages@[x] == language),
                decreases rule.def.languages@.len() - m,
            {
                if rule.def.languages[m] == language {
                    applies = true;
                }
                m = m + 1;
            }
            assert(applies == rule.def.languages@.contains(language));
            if applies && !rule.values_suffice_on(tree, source) {
                return false;
            }
            j = j + 1;
        }
        true
    }

    /// The rule count of each category (`uncategorized` for rules without
    /// one), by category name in byte order.
    pub fn rule_categories(&self) -> (r: Vec<(String, usize)>)
        requires
            pack_categories(self.packs@).len() <= usize::MAX,
        ensures
            category_counts(r@.map_values(|p: (String, usize)| (p.0@, p.1 as nat)), pack_categories(self.packs@)),
    {
        let ghost all = pack_categories(self.packs@);
        let mut cats: Vec<String> = Vec::new();
        let mut p: usize = 0;
        proof {
            assert(self.packs@.subrange(0, 0) =~= Seq::<(PackMeta, Vec<CompiledRule>)>::empty());
            assert(cats@.map_values(|s: String| s@) =~= Seq::<Seq<char>>::empty());
        }
        while p < self.packs.len()
            invariant
                p <= self.packs@.len(),
                cats@.map_values(|s: String| s@) == pack_categories(self.packs@.subrange(0, p as int)),
            decreases self.packs@.len() - p,
        {
            let rules = &self.packs[p].1;
            let ghost head = cats@.map_values(|s: String| s@);
            let mut q: usize = 0;
            while q < rules.len()
                invariant
                    p < self.packs@.len(),
                    rules == self.packs@[p as int].1,
                    q <= rules@.len(),
                    cats@.map_values(|s: String| s@) == head + rules@.map_values(|c: CompiledRule| category_of(c)).subrange(
                        0,
                        q as int,
                    ),
                decreases rules@.len() - q,
            {
                let ghost prev = cats@.map_values(|s: String| s@);
                let category = match &rules[q].def.category {
                    Some(c) => c.clone(),
                    None => "uncategorized".to_owned(),
                };
                cats.push(category);
                proof {
                    assert(cats@.map_values(|s: String| s@) =~= prev.push(category_of(rules@[q as int])));
                    assert(rules@.map_values(|c: CompiledRule| category_of(c)).subrange(0, q + 1) =~= rules@.map_values(
                        |c: CompiledRule| category_of(c),
                    ).subrange(0, q as int).push(category_of(rules@[q as int])));
                }
                q = q + 1;
            }
            proof {
                let sub = self.packs@.subrange(0, p + 1);
                assert(sub.drop_last() =~= self.packs@.subrange(0, p as int));
                assert(rules@.map_values(|c: CompiledRule| category_of(c)).subrange(0, rules@.len() as int)
                    =~= rules@.map_values(|c: CompiledRule| category_of(c)));
            }
            p = p + 1;
        }
        assert(self.packs@.subrange(0, self.packs@.len() as int) =~= self.packs@);
        let ghost cv = cats@.map_values(|s: String| s@);
        assert(cv == all);
        let mut out: Vec<(String, usize)> = Vec::new();
        let mut t: usize = 0;
        proof {
            assert(cv.subrange(0, 0) =~= Seq::<Seq<char>>::empty());
            assert(out@.map_values(|p: (String, usize)| (p.0@, p.1 as nat)) =~= Seq::<(Seq<char>, nat)>::empty());
        }
        while t < cats.len()
            invariant
                t <= cats@.len(),
                cats@.len() <= usize::MAX,
                cv == cats@.map_values(|s: String| s@),
                category_counts(out@.map_values(|p: (String, usize)| (p.0@, p.1 as nat)), cv.subrange(0, t as int)),
            decreases cats@.len() - t,
        {
            let ghost ov = out@.map_values(|p: (String, usize)| (p.0@, p.1 as nat));
            let ghost pre = cv.subrange(0, t as int);
            let ghost next = cv.subrange(0, t + 1);
            let cat = &cats[t];
            let ghost x = cat@;
            proof {
                assert(next.drop_last() =~= pre);
                assert(next.last() == x);
                assert forall|y: Seq<char>| occurrences(next, y) == occurrences(pre, y) + (if x == y { 1nat } else { 0 }) by {}
                lemma_occurrences_bound(pre, x);
            }
            let mut j: usize = 0;
            while j < out.len() && bytes_less(out[j].0.as_str().as_bytes(), cat.as_str().as_bytes())
                invariant
                    j <= out@.len(),
                    ov == out@.map_values(|p: (String, usize)| (p.0@, p.1 as nat)),
                    x == cat@,
                    forall|k: int| 0 <= k < j ==> crate::order::bytes_lt(encode_utf8(#[trigger] ov[k].0), encode_utf8(x)),
                decreases out@.len() - j,
            {
                assert(ov[j as int].0 == out@[j as int].0@);
                j = j + 1;
            }
            proof {
                if j < out@.len() {
                    assert(ov[j as int].0 == out@[j as int].0@);
                    assert(!crate::order::bytes_lt(encode_utf8(ov[j as int].0), encode_utf8(x)));
                }
            }
            if j < out.len() && out[j].0 == *cat {
                proof {
                    assert(ov[j as int].0 == x);
                    assert(ov[j as int].1 == occurrences(pre, x));
                }
                let count = out[j].1;
                out.set(j, (out[j].0.clone(), count + 1));
                proof {
                    let nv = out@.map_values(|p: (String, usize)| (p.0@, p.1 as nat));
                    assert(nv =~= ov.update(j as int, (x, ov[j as int].1 + 1)));
                    assert forall|k: int| 0 <= k < next.len() implies listed(nv, #[trigger] next[k]) by {
                        if k < t {
                            assert(next[k] == pre[k]);
                            assert(listed(ov, pre[k]));
                            let i = choose|i: int| 0 <= i < ov.len() && (#[trigger] ov[i]).0 == pre[k];
                            assert(nv[i].0 == ov[i].0);
                        } else {
                            assert(nv[j as int].0 == next[k]);
                        }
                    }
                    assert forall|i: int, i2: int| 0 <= i < i2 < nv.len() implies crate::order::bytes_lt(
                        encode_utf8((#[trigger] nv[i]).0),
                        encode_utf8((#[trigger] nv[i2]).0),
                    ) by {
                        assert(nv[i].0 == ov[i].0 && nv[i2].0 == ov[i2].0);
                    }
                }
            } else {
                proof {
                    if j < out@.len() {
                        assert(ov[j as int].0 != x);
                        crate::order::lemma_bytes_lt_total(encode_utf8(ov[j as int].0), encode_utf8(x));
                        crate::text::lemma_encode_injective(ov[j as int].0, x);
                    }
                    assert(occurrences(pre, x) == 0) by {
                        if occurrences(pre, x) > 0 {
                            lemma_occurs(pre, x);
                            let k = choose|k: int| 0 <= k < pre.len() && pre[k] == x;
                            assert(listed(ov, pre[k]));
                            assert(listed(ov, pre[k]));
                            let i = choose|i: int| 0 <= i < ov.len() && (#[trigger] ov[i]).0 == pre[k];
                            if i < j {
                                crate::order::lemma_bytes_lt_irreflexive(encode_utf8(x));
                            } else if i > j {
                                crate::order::lemma_bytes_lt_transitive(
                                    encode_utf8(x),
                                    encode_utf8(ov[j as int].0),
                                    encode_utf8(ov[i].0),
                                );
                                crate::order::lemma_bytes_lt_irreflexive(encode_utf8(x));
                            }
                        }
                    }
                }
                out.insert(j, (cat.clone(), 1));
                proof {
                    let nv = out@.map_values(|p: (String, usize)| (p.0@, p.1 as nat));
                    assert(nv =~= ov.insert(j as int, (x, 1nat)));
                    assert forall|i: int, i2: int| 0 <= i < i2 < nv.len() implies crate::order::bytes_lt(
                        encode_utf8((#[trigger] nv[i]).0),
                        encode_utf8((#[trigger] nv[i2]).0),
                    ) by {
                        if i2 == j {
                            assert(nv[i] == ov[i]);
                        } else if i == j {
                            assert(nv[i2] == ov[i2 - 1]);
                            if i2 - 1 > j {
                                crate::order::lemma_bytes_lt_transitive(
                                    encode_utf8(x),
                                    encode_utf8(ov[j as int].0),
                                    encode_utf8(ov[i2 - 1].0),
                                );
                            }
                        } else {
                            let oi = if i < j { i } else { i - 1 };
                            let oi2 = if i2 < j { i2 } else { i2 - 1 };
                            assert(nv[i] == ov[oi] && nv[i2] == ov[oi2]);
                        }
                    }
                    assert forall|i: int| 0 <= i < nv.len() implies (#[trigger] nv[i]).1 == occurrences(next, nv[i].0)
                        && nv[i].1 > 0 by {
                        if i != j {
                            let oi = if i < j { i } else { i - 1 };
                            assert(nv[i] == ov[oi]);
                            assert(ov[oi].0 != x) by {
                                if ov[oi].0 == x {
                                    assert(ov[oi].1 > 0);
                                }
                            }
                        }
                    }
                    assert forall|k: int| 0 <= k < next.len() implies listed(nv, #[trigger] next[k]) by {
                        if k < t {
                            assert(next[k] == pre[k]);
                            let i = choose|i: int| 0 <= i < ov.len() && (#[trigger] ov[i]).0 == pre[k];
                            if i < j {
                                assert(nv[i] == ov[i]);
                            } else {
                                assert(nv[i + 1] == ov[i]);
                            }
                        } else {
                            assert(nv[j as int].0 == next[k]);
                        }
                    }
                }
            }
            t = t + 1;
        }
        assert(cv.subrange(0, cats@.len() as int) =~= cv);
        out
    }

    /// Number of loaded rules.
    pub fn count(&self) -> (r: usize)
        requires
            rule_entries(self.packs@).len() <= usize::MAX,
        ensures
            r == rule_entries(self.packs@).len(),
    {
        let rules = self.iter();
        rules.len()
    }

    /// The names of the loaded packs, in order.
    pub fn pack_names(&self) -> (r: Vec<String>)
        ensures
            r@.map_values(|s: String| s@) == self.packs@.map_values(|p: (PackMeta, Vec<CompiledRule>)| p.0.name@),
    {
        let mut out: Vec<String> = Vec::new();
        let mut p: usize = 0;
        while p < self.packs.len()
            invariant
                p <= self.packs@.len(),
                out@.map_values(|s: String| s@) == self.packs@.map_values(
                    |q: (PackMeta, Vec<CompiledRule>)| q.0.name@,
                ).subrange(0, p as int),
            decreases self.packs@.len() - p,
        {
            let ghost prev = out@;
            out.push(self.packs[p].0.name.clone());
            assert(out@.map_values(|s: String| s@) =~= prev.map_values(|s: String| s@).push(self.packs@[p as int].0.name@));
            p = p + 1;
            assert(out@.map_values(|s: String| s@) =~= self.packs@.map_values(
                |q: (PackMeta, Vec<CompiledRule>)| q.0.name@,
            ).subrange(0, p as int));
        }
        assert(self.packs@.map_values(|q: (PackMeta, Vec<CompiledRule>)| q.0.name@).subrange(0, self.packs@.len() as int)
            =~= self.packs@.map_values(|q: (PackMeta, Vec<CompiledRule>)| q.0.name@));
        out
    }
}

/// A rule is one of the rules of the packs.
pub open spec fn in_packs(c: CompiledRule, packs: Seq<(PackMeta, Vec<CompiledRule>)>) -> bool {
    exists|p: int, q: int| 0 <= p < packs.len() && 0 <= q < packs[p].1@.len() && #[trigger] packs[p].1@[q] == c
}

/// Over this tree and source, a query rule's query has a value for every
/// `eq`/`not-eq` predicate that its matches reach with text (see
/// `crate::query::values_suffice`).
pub open spec fn rule_values_suffice(rule: Rule, tree: crate::syntax::SyntaxTree, source: Seq<char>) -> bool {
    rule.taint is None ==> (rule.query matches Some(q) ==> (first_language(rule) matches Some(l)
        ==> crate::query::values_suffice(tree, source, q.tree_sitter@, opt_string_text(q.not_regex), l)))
}

/// Every rule of the packs for `language` meets `rule_values_suffice`
/// over this tree and source.
pub open spec fn values_suffice_for(
    packs: Seq<(PackMeta, Vec<CompiledRule>)>,
    tree: crate::syntax::SyntaxTree,
    source: Seq<char>,
    language: Language,
) -> bool {
    forall|k: int|
        0 <= k < all_rules(packs).len() && (#[trigger] all_rules(packs)[k]).definition().languages@.contains(language)
            ==> rule_values_suffice(all_rules(packs)[k].definition(), tree, source)
}

/// A query rule's query is well formed.
pub open spec fn rule_query_ok(c: CompiledRule) -> bool {
    c.definition().query matches Some(q) ==> crate::query::predicates_close(q.tree_sitter@, 0)
}

/// A rule's category (`uncategorized` when it has none).
pub open spec fn category_of(c: CompiledRule) -> Seq<char> {
    match c.definition().category {
        Some(x) => x@,
        None => "uncategorized"@,
    }
}

/// The categories of all rules of the packs, pack by pack, in order.
pub open spec fn pack_categories(packs: Seq<(PackMeta, Vec<CompiledRule>)>) -> Seq<Seq<char>>
    decreases packs.len(),
{
    if packs.len() == 0 {
        Seq::empty()
    } else {
        pack_categories(packs.drop_last()) + packs.last().1@.map_values(|c: CompiledRule| category_of(c))
    }
}

/// How many times `x` occurs in `s`.
pub open spec fn occurrences(s: Seq<Seq<char>>, x: Seq<char>) -> nat
    decreases s.len(),
{
    if s.len() == 0 {
        0
    } else {
        occurrences(s.drop_last(), x) + (if s.last() == x { 1nat } else { 0 })
    }
}

/// `counts` lists each category of `cats` once with the number of its
/// occurrences, in byte order of the names.
pub open spec fn category_counts(counts: Seq<(Seq<char>, nat)>, cats: Seq<Seq<char>>) -> bool {
    &&& forall|i: int, j: int|
        0 <= i < j < counts.len() ==> crate::order::bytes_lt(
            encode_utf8((#[trigger] counts[i]).0),
            encode_utf8((#[trigger] counts[j]).0),
        )
    &&& forall|i: int| 0 <= i < counts.len() ==> (#[trigger] counts[i]).1 == occurrences(cats, counts[i].0) && counts[i].1 > 0
    &&& forall|k: int| 0 <= k < cats.len() ==> listed(counts, #[trigger] cats[k])
}

/// `x` is one of the names of `counts`.
pub open spec fn listed(counts: Seq<(Seq<char>, nat)>, x: Seq<char>) -> bool {
    exists|i: int| 0 <= i < counts.len() && (#[trigger] counts[i]).0 == x
}

proof fn lemma_occurrences_bound(s: Seq<Seq<char>>, x: Seq<char>)
    ensures
        occurrences(s, x) <= s.len(),
    decreases s.len(),
{
    if s.len() > 0 {
        lemma_occurrences_bound(s.drop_last(), x);
    }
}

proof fn lemma_occurs(s: Seq<Seq<char>>, x: Seq<char>)
    requires
        occurrences(s, x) > 0,
    ensures
        exists|k: int| 0 <= k < s.len() && s[k] == x,
    decreases s.len(),
{
    if s.last() != x {
        lemma_occurs(s.drop_last(), x);
        let k = choose|k: int| 0 <= k < s.len() - 1 && s.drop_last()[k] == x;
        assert(s[k] == x);
    } else {
        assert(s[s.len() - 1] == x);
    }
}

/// The rules before position `k` all compile.
pub open spec fn all_compile(rules: Seq<Rule>, k: int) -> bool {
    forall|j: int| 0 <= j < k ==> rule_compiles(#[trigger] rules[j])
}

/// Every rule of every pack compiles.
pub open spec fn packs_compile(packs: Seq<(PackMeta, Vec<Rule>)>) -> bool {
    forall|i: int| 0 <= i < packs.len() ==> all_compile((#[trigger] packs[i]).1@, packs[i].1@.len() as int)
}

/// How a compile error names its rule: `<label> '<id>': `.
pub open spec fn compile_error_prefix(label: Seq<char>, rule: Rule) -> Seq<char> {
    label + " '"@ + rule.id@ + "': "@
}

/// Compiles rules in order; the first that does not compile stops it, with
/// a validation error that names the rule after `label`.
pub fn compile_all(rules: Vec<Rule>, label: &str) -> (r: Result<Vec<CompiledRule>, PackError>)
    ensures
        match r {
            Ok(cs) => all_compile(rules@, rules@.len() as int) && cs@.map_values(|c: CompiledRule| c.definition())
                == rules@,
            Err(PackError::Validate { message }) => exists|k: int|
                0 <= k < rules@.len() && all_compile(rules@, k) && !rule_compiles(#[trigger] rules@[k])
                    && message@.subrange(0, compile_error_prefix(label@, rules@[k]).len() as int)
                    == compile_error_prefix(label@, rules@[k]),
            Err(_) => false,
        },
{
    let ghost rs = rules@;
    let mut compiled: Vec<CompiledRule> = Vec::new();
    let mut rest = rules;
    let ghost mut i: int = 0;
    proof {
        assert(compiled@.map_values(|c: CompiledRule| c.definition()) =~= rs.subrange(0, 0));
    }
    while rest.len() > 0
        invariant
            0 <= i,
            i + rest@.len() == rs.len(),
            rs == rules@,
            rest@ == rs.subrange(i as int, rs.len() as int),
            compiled@.map_values(|c: CompiledRule| c.definition()) == rs.subrange(0, i as int),
            all_compile(rs, i),
        decreases rest@.len(),
    {
        let rule = rest.remove(0);
        assert(rule == rs[i as int]);
        match CompiledRule::compile(rule) {
            Err((bad, message)) => {
                let mut text = label.to_owned();
                push_str(&mut text, " '");
                push_str(&mut text, bad.id.as_str());
                push_str(&mut text, "': ");
                let ghost prefix = text@;
                push_str(&mut text, message.as_str());
                proof {
                    assert(prefix == compile_error_prefix(label@, rs[i]));
                    assert(text@.subrange(0, prefix.len() as int) =~= prefix);
                    assert(!rule_compiles(rs[i]));
                }
                return Err(PackError::Validate { message: text });
            },
            Ok(c) => {
                assert(c.definition() == rs[i]);
                let ghost prev = compiled@;
                compiled.push(c);
                proof {
                    assert(compiled@.map_values(|x: CompiledRule| x.definition()) =~= prev.map_values(
                        |x: CompiledRule| x.definition(),
                    ).push(rs[i]));
                    assert(rs.subrange(0, i + 1) =~= rs.subrange(0, i).push(rs[i]));
                    i = i + 1;
                }
            },
        }
        assert(rest@ =~= rs.subrange(i as int, rs.len() as int));
    }
    assert(rs.subrange(0, rs.len() as int) =~= rs);
    Ok(compiled)
}

/// Compiles packs in order (the built-in packs); a rule that does not
/// compile stops it with `built-in rule '<id>': <reason>`.
pub fn compile_packs(packs: Vec<(PackMeta, Vec<Rule>)>) -> (r: Result<Vec<(PackMeta, Vec<CompiledRule>)>, PackError>)
    ensures
        match r {
            Ok(out) => packs_compile(packs@) && out@.len() == packs@.len() && forall|i: int|
                0 <= i < packs@.len() ==> (#[trigger] out@[i]).0 == packs@[i].0 && out@[i].1@.map_values(
                    |c: CompiledRule| c.definition(),
                ) == packs@[i].1@,
            Err(PackError::Validate { message }) => !packs_compile(packs@) && exists|i: int, k: int|
                0 <= i < packs@.len() && 0 <= k < packs@[i].1@.len() && !rule_compiles(#[trigger] packs@[i].1@[k])
                    && message@.subrange(0, compile_error_prefix("built-in rule"@, packs@[i].1@[k]).len() as int)
                    == compile_error_prefix("built-in rule"@, packs@[i].1@[k]),
            Err(_) => false,
        },
{
    let ghost ps = packs@;
    let mut out: Vec<(PackMeta, Vec<CompiledRule>)> = Vec::new();
    let mut rest = packs;
    let ghost mut i: int = 0;
    while rest.len() > 0
        invariant
            0 <= i,
            i + rest@.len() == ps.len(),
            ps == packs@,
            rest@ == ps.subrange(i as int, ps.len() as int),
            out@.len() == i,
            forall|j: int| 0 <= j < i ==> (#[trigger] out@[j]).0 == ps[j].0 && out@[j].1@.map_values(
                |c: CompiledRule| c.definition(),
            ) == ps[j].1@,
            forall|j: int| 0 <= j < i ==> all_compile((#[trigger] ps[j]).1@, ps[j].1@.len() as int),
        decreases rest@.len(),
    {
        let (meta, rules) = rest.remove(0);
        assert((meta, rules) == ps[i as int]);
        match compile_all(rules, "built-in rule") {
            Ok(cs) => {
                out.push((meta, cs));
                proof {
                    i = i + 1;
                }
            },
            Err(e) => {
                proof {
                    if e is Validate {
                        let message = e->message;
                        let k = choose|k: int|
                            0 <= k < ps[i].1@.len() && all_compile(ps[i].1@, k) && !rule_compiles(
                                #[trigger] ps[i].1@[k],
                            ) && message@.subrange(
                                0,
                                compile_error_prefix("built-in rule"@, ps[i].1@[k]).len() as int,
                            ) == compile_error_prefix("built-in rule"@, ps[i].1@[k]);
                        assert(!rule_compiles(ps[i].1@[k]));
                        assert(!all_compile(ps[i].1@, ps[i].1@.len() as int));
                        assert(ps[i] == packs@[i]);
                    }
                }
                return Err(e);
            },
        }
        assert(rest@ =~= ps.subrange(i as int, ps.len() as int));
    }
    Ok(out)
}

/// Validates a loaded pack without registering it: this Hawk must be
/// recent enough for it, and every rule must compile (the first that does
/// not is reported as `rule '<id>': <reason>`). Gives back its metadata.
pub fn validate_pack_dir(meta: PackMeta, rules: Vec<Rule>) -> (r: Result<PackMeta, PackError>)
    ensures
        match r {
            Ok(m) => m == meta && !(meta.min_hawk matches Some(min) && spec_semver_gt(min@, HAWK_VERSION@))
                && all_compile(rules@, rules@.len() as int),
            Err(PackError::Validate { message }) => (meta.min_hawk matches Some(min) && spec_semver_gt(
                min@,
                HAWK_VERSION@,
            ) && message@ == too_new_message(meta.name@, min@)) || (!(meta.min_hawk matches Some(min)
                && spec_semver_gt(min@, HAWK_VERSION@)) && exists|k: int|
                0 <= k < rules@.len() && all_compile(rules@, k) && !rule_compiles(#[trigger] rules@[k])
                    && message@.subrange(0, compile_error_prefix("rule"@, rules@[k]).len() as int)
                    == compile_error_prefix("rule"@, rules@[k])),
            Err(_) => false,
        },
{
    match check_min_hawk(&meta) {
        Err(e) => return Err(e),
        Ok(()) => {},
    }
    match compile_all(rules, "rule") {
        Ok(_) => Ok(meta),
        Err(e) => Err(e),
    }
}

/// Compiles a rule read on its own (outside any pack, for `rule test`);
/// a rule that does not compile is reported as `rule '<id>': <reason>`.
pub fn compile_single_rule(rule: Rule) -> (r: Result<CompiledRule, PackError>)
    ensures
        match r {
            Ok(c) => rule_compiles(rule) && c.definition() == rule,
            Err(PackError::Validate { message }) => !rule_compiles(rule) && message@.subrange(
                0,
                compile_error_prefix("rule"@, rule).len() as int,
            ) == compile_error_prefix("rule"@, rule),
            Err(_) => false,
        },
{
    let ghost def = rule;
    let mut rules: Vec<Rule> = Vec::new();
    rules.push(rule);
    match compile_all(rules, "rule") {
        Ok(mut cs) => {
            assert(cs@.map_values(|c: CompiledRule| c.definition())[0] == cs@[0].definition());
            assert(all_compile(seq![def], 1));
            assert(seq![def][0] == def);
            Ok(cs.remove(0))
        },
        Err(e) => Err(e),
    }
}

/// Each string followed by a NUL.
pub open spec fn nul_terminated(v: Seq<String>) -> Seq<char>
    decreases v.len(),
{
    if v.len() == 0 {
        Seq::empty()
    } else {
        nul_terminated(v.drop_last()) + v.last()@ + seq!['\0']
    }
}

pub open spec fn opt_chars(o: Option<String>) -> Seq<char> {
    match o {
        Some(s) => s@,
        None => Seq::empty(),
    }
}

pub open spec fn pattern_material(o: Option<PatternRule>) -> Seq<char> {
    match o {
        Some(p) => p.regex@ + seq!['\0'] + opt_chars(p.not_regex),
        None => Seq::empty(),
    }
}

pub open spec fn query_material(o: Option<QueryRule>) -> Seq<char> {
    match o {
        Some(q) => q.tree_sitter@ + seq!['\0'] + (match q.anchor {
            Some(a) => a@ + seq!['\0'],
            None => Seq::empty(),
        }) + opt_chars(q.not_regex),
        None => Seq::empty(),
    }
}

pub open spec fn taint_material(o: Option<TaintConfig>) -> Seq<char> {
    match o {
        Some(t) => nul_terminated(t.sources@) + nul_terminated(t.sanitizers@) + nul_terminated(t.sinks@),
        None => Seq::empty(),
    }
}

/// What identifies a rule's analysis in the cache namespace.
pub open spec fn rule_material(r: Rule) -> Seq<char> {
    r.id@ + seq!['\0'] + r.description@ + seq!['\0'] + pattern_material(r.pattern)
        + query_material(r.query) + taint_material(r.taint)
}

pub open spec fn rules_material(rules: Seq<CompiledRule>) -> Seq<char>
    decreases rules.len(),
{
    if rules.len() == 0 {
        Seq::empty()
    } else {
        rules_material(rules.drop_last()) + rule_material(rules.last().definition())
    }
}

/// What identifies the loaded packs in the cache namespace.
pub open spec fn packs_material(packs: Seq<(PackMeta, Vec<CompiledRule>)>) -> Seq<char>
    decreases packs.len(),
{
    if packs.len() == 0 {
        Seq::empty()
    } else {
        let (meta, rules) = packs.last();
        packs_material(packs.drop_last()) + meta.name@ + seq!['\0'] + meta.version@ + seq!['\0']
            + rules_material(rules@)
    }
}

fn push_nul_terminated(out: &mut String, v: &Vec<String>)
    ensures
        final(out)@ == old(out)@ + nul_terminated(v@),
{
    let ghost start = out@;
    let mut i: usize = 0;
    proof {
        assert(v@.subrange(0, 0) =~= Seq::<String>::empty());
        assert(start + nul_terminated(Seq::<String>::empty()) =~= start);
    }
    while i < v.len()
        invariant
            i <= v@.len(),
            out@ == start + nul_terminated(v@.subrange(0, i as int)),
        decreases v@.len() - i,
    {
        proof {
            let sub = v@.subrange(0, i + 1);
            assert(sub.drop_last() =~= v@.subrange(0, i as int));
            assert(sub.last() == v@[i as int]);
        }
        let ghost before = out@;
        push_str(out, v[i].as_str());
        push_char(out, '\0');
        i = i + 1;
        assert(out@ =~= start + nul_terminated(v@.subrange(0, i as int)));
    }
    assert(v@.subrange(0, v@.len() as int) =~= v@);
}

fn push_opt(out: &mut String, o: &Option<String>)
    ensures
        final(out)@ == old(out)@ + opt_chars(*o),
{
    match o {
        Some(s) => push_str(out, s.as_str()),
        None => {
            assert(out@ =~= out@ + Seq::<char>::empty());
        },
    }
}

fn push_pattern_material(out: &mut String, o: &Option<PatternRule>)
    ensures
        final(out)@ == old(out)@ + pattern_material(*o),
{
    match o {
        Some(p) => {
            let ghost start = out@;
            push_str(out, p.regex.as_str());
            push_char(out, '\0');
            push_opt(out, &p.not_regex);
            assert(out@ =~= start + pattern_material(*o));
        },
        None => {
            assert(out@ =~= out@ + Seq::<char>::empty());
        },
    }
}

fn push_query_material(out: &mut String, o: &Option<QueryRule>)
    ensures
        final(out)@ == old(out)@ + query_material(*o),
{
    match o {
        Some(q) => {
            let ghost start = out@;
            push_str(out, q.tree_sitter.as_str());
            push_char(out, '\0');
            let ghost mid = out@;
            match &q.anchor {
                Some(anchor) => {
                    push_str(out, anchor.as_str());
                    push_char(out, '\0');
                },
                None => {},
            }
            let ghost after = out@;
            assert(after =~= mid + (match q.anchor {
                Some(a) => a@ + seq!['\0'],
                None => Seq::<char>::empty(),
            }));
            push_opt(out, &q.not_regex);
            assert(out@ =~= start + query_material(*o));
        },
        None => {
            assert(out@ =~= out@ + Seq::<char>::empty());
        },
    }
}

fn push_taint_material(out: &mut String, o: &Option<TaintConfig>)
    ensures
        final(out)@ == old(out)@ + taint_material(*o),
{
    match o {
        Some(t) => {
            let ghost start = out@;
            push_nul_terminated(out, &t.sources);
            push_nul_terminated(out, &t.sanitizers);
            push_nul_terminated(out, &t.sinks);
            assert(out@ =~= start + taint_material(*o));
        },
        None => {
            assert(out@ =~= out@ + Seq::<char>::empty());
        },
    }
}

fn push_rule_material(out: &mut String, r: &Rule)
    ensures
        final(out)@ == old(out)@ + rule_material(*r),
{
    let ghost start = out@;
    push_str(out, r.id.as_str());
    push_char(out, '\0');
    push_str(out, r.description.as_str());
    push_char(out, '\0');
    push_pattern_material(out, &r.pattern);
    push_query_material(out, &r.query);
    push_taint_material(out, &r.taint);
    assert(out@ =~= start + rule_material(*r));
}

impl PackRegistry {
    /// The cache namespace of the loaded packs: the cache schema and a hash of
    /// every pack's name and version and every rule's identifying text, so
    /// cached results never outlive the rules that produced them.
    pub fn cache_namespace(&self) -> (r: String)
        ensures
            r@ == crate::cache::CACHE_SCHEMA@ + seq![':'] + crate::hashing::hex_digits(
                crate::hashing::fnv1a(encode_utf8(packs_material(self.packs@))) as nat,
                16,
            ),
    {
        let mut material = String::new();
        let mut p: usize = 0;
        proof {
            assert(self.packs@.subrange(0, 0) =~= Seq::<(PackMeta, Vec<CompiledRule>)>::empty());
        }
        while p < self.packs.len()
            invariant
                p <= self.packs@.len(),
                material@ == packs_material(self.packs@.subrange(0, p as int)),
            decreases self.packs@.len() - p,
        {
            let (meta, rules) = (&self.packs[p].0, &self.packs[p].1);
            proof {
                let sub = self.packs@.subrange(0, p + 1);
                assert(sub.drop_last() =~= self.packs@.subrange(0, p as int));
                assert(sub.last() == self.packs@[p as int]);
            }
            let ghost start = material@;
            push_str(&mut material, meta.name.as_str());
            push_char(&mut material, '\0');
            push_str(&mut material, meta.version.as_str());
            push_char(&mut material, '\0');
            let ghost head = material@;
            let mut q: usize = 0;
            proof {
                assert(rules@.subrange(0, 0) =~= Seq::<CompiledRule>::empty());
                assert(head + rules_material(Seq::<CompiledRule>::empty()) =~= head);
            }
            while q < rules.len()
                invariant
                    q <= rules@.len(),
                    material@ == head + rules_material(rules@.subrange(0, q as int)),
                decreases rules@.len() - q,
            {
                proof {
                    let sub = rules@.subrange(0, q + 1);
                    assert(sub.drop_last() =~= rules@.subrange(0, q as int));
                    assert(sub.last() == rules@[q as int]);
                }
                push_rule_material(&mut material, &rules[q].def);
                q = q + 1;
                assert(material@ =~= head + rules_material(rules@.subrange(0, q as int)));
            }
            proof {
                assert(rules@.subrange(0, rules@.len() as int) =~= rules@);
                assert(material@ =~= start + meta.name@ + seq!['\0'] + meta.version@ + seq!['\0'] + rules_material(
                    rules@,
                ));
            }
            p = p + 1;
        }
        assert(self.packs@.subrange(0, self.packs@.len() as int) =~= self.packs@);
        let digest = crate::hashing::hash_bytes(material.as_str().as_bytes());
        let mut out = crate::cache::CACHE_SCHEMA.to_owned();
        push_char(&mut out, ':');
        push_str(&mut out, digest.as_str());
        out
    }
}

impl CompiledRule {
    /// The finding of a query rule at a captured node.
    fn query_finding(&self, source: &str, path: &str, c: &crate::query::Capture) -> (r: Finding)
        requires
            c.start_row < usize::MAX,
            c.start_column < usize::MAX,
            c.end_row < usize::MAX,
            c.end_column < usize::MAX,
            c.start_byte >= sbytes(source).len() || is_char_boundary(sbytes(source), c.start_byte as int),
        ensures
            is_site_finding(self.definition(), r, *c, sbytes(source), path@),
    {
        let location = SourceLocation {
            path: path.to_owned(),
            start_byte: c.start_byte,
            end_byte: c.end_byte,
            start_line: c.start_row + 1,
            start_column: c.start_column + 1,
            end_line: c.end_row + 1,
            end_column: c.end_column + 1,
        };
        let snippet = line_text(source, c.start_byte);
        let mut finding = Finding::new(self.def.id.as_str(), self.def.severity, self.def.name.as_str(), location)
            .with_confidence(self.def.confidence)
            .with_rule_name(self.def.name.as_str())
            .with_description(self.def.description.as_str())
            .with_code_snippet(snippet.as_str());
        if let Some(value) = &self.def.category {
            finding = finding.with_category(value.as_str());
        }
        if let Some(value) = &self.def.recommendation {
            finding = finding.with_recommendation(value.as_str());
        }
        if let Some(value) = &self.def.framework {
            finding = finding.with_framework(value.as_str());
        }
        if let Some(value) = &self.def.cwe {
            finding = finding.with_cwe(value.as_str());
        }
        if let Some(value) = &self.def.owasp {
            finding = finding.with_owasp(value.as_str());
        }
        if let Some(value) = self.primary_language() {
            finding = finding.with_language(value);
        }
        finding
    }

    /// The finding that reports a query that could not run.
    fn query_error_finding(&self, path: &str, message: &str) -> (r: Finding)
        ensures
            r.rule_id@ == self.definition().id@ + ":query-error"@,
            r.severity == self.definition().severity,
            r.message@ == "tree-sitter query failed: "@ + message@,
            r.location.path@ == path@,
            r.location.start_byte == 0,
            r.location.end_byte == 0,
            r.location.start_line == 1,
            r.location.start_column == 1,
    {
        let mut id = self.def.id.clone();
        push_str(&mut id, ":query-error");
        let mut text = "tree-sitter query failed: ".to_owned();
        push_str(&mut text, message);
        let location = SourceLocation {
            path: path.to_owned(),
            start_byte: 0,
            end_byte: 0,
            start_line: 1,
            start_column: 1,
            end_line: 1,
            end_column: 1,
        };
        Finding::new(id.as_str(), self.def.severity, text.as_str(), location)
    }

    /// Runs the rule on a parsed file: a taint rule runs the taint walk
    /// (with the code graph, when given, for callees in other files); a
    /// query rule runs its tree-sitter query, and a query that cannot run
    /// is reported as one `<id>:query-error` finding; a pattern rule
    /// matches its regex on the source.
    pub fn check_parsed_with_graph(
        &self,
        tree: &crate::syntax::SyntaxTree,
        source: &str,
        path: &str,
        graph: Option<&crate::code_graph::CodeGraph>,
    ) -> (r: Vec<Finding>)
        requires
            crate::semantic::positions_fit(tree.root),
            self.definition().taint is Some ==> (graph matches Some(g) ==> g.wf()),
            sbytes(source).len() < usize::MAX,
            self.definition().query matches Some(q) ==> crate::query::predicates_close(q.tree_sitter@, 0),
            rule_values_suffice(self.definition(), *tree, source@),
        ensures
            self.definition().taint is Some ==> forall|i: int| 0 <= i < r@.len() ==> (#[trigger] r@[i]).rule_id@
                == self.definition().id@ && r@[i].severity == self.definition().severity,
            self.definition().taint matches Some(t) ==> taint_rule_result(
                self.definition(),
                t,
                *tree,
                source@,
                path@,
                match graph {
                    Some(g) => Some(*g),
                    None => None,
                },
                r@,
            ),
            self.definition().taint is None && self.definition().query is Some ==> forall|i: int|
                0 <= i < r@.len() ==> (#[trigger] r@[i]).severity == self.definition().severity && (r@[i].rule_id@
                    == self.definition().id@ || r@[i].rule_id@ == self.definition().id@ + ":query-error"@),
            self.definition().taint is None ==> (self.definition().query matches Some(q) ==> query_rule_result(
                self.definition(),
                q,
                *tree,
                source@,
                path@,
                r@,
            )),
            self.definition().taint is None && self.definition().query is None ==> pattern_run(*self, r@, source, path@),
    {
        if let Some(taint) = &self.def.taint {
            let language = match self.primary_language() {
                Some(l) => l,
                None => Language::Java,
            };
            let found = crate::taint_engine::analyze_with_graph(tree, source, taint, language, graph, Some(path));
            let metadata = crate::taint::TaintMetadata {
                rule_id: self.def.id.as_str(),
                rule_name: self.def.name.as_str(),
                description: self.def.description.as_str(),
                recommendation: match &self.def.recommendation {
                    Some(v) => Some(v.as_str()),
                    None => None,
                },
                category: match &self.def.category {
                    Some(v) => Some(v.as_str()),
                    None => None,
                },
                framework: match &self.def.framework {
                    Some(v) => Some(v.as_str()),
                    None => None,
                },
                cwe: match &self.def.cwe {
                    Some(v) => Some(v.as_str()),
                    None => None,
                },
                owasp: match &self.def.owasp {
                    Some(v) => Some(v.as_str()),
                    None => None,
                },
                language: self.primary_language(),
                severity: self.def.severity,
                confidence: self.def.confidence,
            };
            let mut out: Vec<Finding> = Vec::new();
            let n = source.as_bytes().len();
            let ghost src = sbytes(source);
            let mut i: usize = 0;
            proof {
                assert(found@.subrange(0, 0) =~= Seq::<crate::taint::TaintFinding>::empty());
            }
            while i < found.len()
                invariant
                    i <= found@.len(),
                    n == sbytes(source).len(),
                    src == sbytes(source),
                    metadata.rule_id@ == self.definition().id@,
                    metadata.severity == self.definition().severity,
                    forall|k: int| 0 <= k < out@.len() ==> (#[trigger] out@[k]).rule_id@ == self.definition().id@
                        && out@[k].severity == self.definition().severity,
                    out@.len() == placeable_taints(found@.subrange(0, i as int), src).len(),
                    forall|k: int|
                        0 <= k < out@.len() ==> is_taint_finding(
                            self.definition(),
                            #[trigger] out@[k],
                            placeable_taints(found@.subrange(0, i as int), src)[k],
                            path@,
                        ),
                decreases found@.len() - i,
            {
                proof {
                    let sub = found@.subrange(0, i + 1);
                    assert(sub.drop_last() =~= found@.subrange(0, i as int));
                    assert(sub.last() == found@[i as int]);
                }
                let tf = &found[i];
                let on_boundary = tf.start_byte >= n || text_of(source, tf.start_byte, tf.start_byte).is_some();
                if tf.start_byte <= tf.end_byte && tf.end_byte - tf.start_byte <= usize::MAX - tf.start_column
                    && on_boundary {
                    let ghost before = out@;
                    out.push(crate::taint::to_finding(tf, source, metadata, path));
                    proof {
                        assert forall|k: int| 0 <= k < out@.len() implies is_taint_finding(
                            self.definition(),
                            #[trigger] out@[k],
                            placeable_taints(found@.subrange(0, i + 1), src)[k],
                            path@,
                        ) by {
                            if k < before.len() {
                                assert(out@[k] == before[k]);
                            }
                        }
                    }
                }
                i = i + 1;
            }
            proof {
                assert(found@.subrange(0, found@.len() as int) =~= found@);
                assert(src == encode_utf8(source@));
                assert(out@.len() == placeable_taints(found@, src).len());
            }
            return out;
        }
        if let Some(query) = &self.def.query {
            let anchor = match &query.anchor {
                Some(a) => Some(a.as_str()),
                None => None,
            };
            let not_regex = match &query.not_regex {
                Some(p) => Some(p.as_str()),
                None => None,
            };
            let mut out: Vec<Finding> = Vec::new();
            let ghost src = sbytes(source);
            let ghost q = *query;
            assert(opt_str(anchor) == opt_string_text(query.anchor));
            assert(opt_str(not_regex) == opt_string_text(query.not_regex));
            match crate::query::execute_query(
                tree,
                source,
                query.tree_sitter.as_str(),
                anchor,
                not_regex,
                self.primary_language(),
            ) {
                Ok(sites) => {
                    let n = source.as_bytes().len();
                    let mut i: usize = 0;
                    proof {
                        assert(sites@.subrange(0, 0) =~= Seq::<crate::query::Capture>::empty());
                    }
                    while i < sites.len()
                        invariant
                            i <= sites@.len(),
                            n == sbytes(source).len(),
                            src == sbytes(source),
                            forall|k: int| 0 <= k < out@.len() ==> (#[trigger] out@[k]).rule_id@ == self.definition().id@
                                && out@[k].severity == self.definition().severity,
                            out@.len() == placeable_sites(sites@.subrange(0, i as int), src).len(),
                            forall|k: int|
                                0 <= k < out@.len() ==> is_site_finding(
                                    self.definition(),
                                    #[trigger] out@[k],
                                    placeable_sites(sites@.subrange(0, i as int), src)[k],
                                    src,
                                    path@,
                                ),
                        decreases sites@.len() - i,
                    {
                        proof {
                            let sub = sites@.subrange(0, i + 1);
                            assert(sub.drop_last() =~= sites@.subrange(0, i as int));
                            assert(sub.last() == sites@[i as int]);
                        }
                        let c = &sites[i];
                        let on_boundary = c.start_byte >= n || text_of(source, c.start_byte, c.start_byte).is_some();
                        if c.start_row < usize::MAX && c.start_column < usize::MAX && c.end_row < usize::MAX
                            && c.end_column < usize::MAX && on_boundary {
                            let ghost before = out@;
                            out.push(self.query_finding(source, path, c));
                            proof {
                                assert forall|k: int| 0 <= k < out@.len() implies is_site_finding(
                                    self.definition(),
                                    #[trigger] out@[k],
                                    placeable_sites(sites@.subrange(0, i + 1), src)[k],
                                    src,
                                    path@,
                                ) by {
                                    if k < before.len() {
                                        assert(out@[k] == before[k]);
                                    }
                                }
                            }
                        }
                        i = i + 1;
                    }
                    proof {
                        assert(sites@.subrange(0, sites@.len() as int) =~= sites@);
                    }
                },
                Err(message) => {
                    out.push(self.query_error_finding(path, message.as_str()));
                    proof {
                        assert(out@[0].message@.subrange(0, "tree-sitter query failed: "@.len() as int) =~= "tree-sitter query failed: "@);
                    }
                },
            }
            return out;
        }
        self.check(source, path)
    }

    /// Whether `rule_values_suffice` holds for this rule over the tree and
    /// source: runs the rule's query there and evaluates its predicates.
    pub fn values_suffice_on(&self, tree: &crate::syntax::SyntaxTree, source: &str) -> (r: bool)
        requires
            self.definition().query matches Some(q) ==> crate::query::predicates_close(q.tree_sitter@, 0),
        ensures
            r == rule_values_suffice(self.definition(), *tree, source@),
    {
        if self.def.taint.is_some() {
            return true;
        }
        match &self.def.query {
            None => true,
            Some(query) => match self.primary_language() {
                None => true,
                Some(l) => {
                    let not_regex = match &query.not_regex {
                        Some(p) => Some(p.as_str()),
                        None => None,
                    };
                    assert(opt_str(not_regex) == opt_string_text(query.not_regex));
                    crate::query::query_values_suffice(tree, source, query.tree_sitter.as_str(), not_regex, l)
                },
            },
        }
    }

    /// `check_parsed_with_graph` without a code graph.
    pub fn check_parsed(&self, tree: &crate::syntax::SyntaxTree, source: &str, path: &str) -> (r: Vec<Finding>)
        requires
            crate::semantic::positions_fit(tree.root),
            sbytes(source).len() < usize::MAX,
            self.definition().query matches Some(q) ==> crate::query::predicates_close(q.tree_sitter@, 0),
            rule_values_suffice(self.definition(), *tree, source@),
        ensures
            self.definition().taint is Some ==> forall|i: int| 0 <= i < r@.len() ==> (#[trigger] r@[i]).rule_id@
                == self.definition().id@ && r@[i].severity == self.definition().severity,
            self.definition().taint matches Some(t) ==> taint_rule_result(self.definition(), t, *tree, source@, path@, None, r@),
            self.definition().taint is None ==> (self.definition().query matches Some(q) ==> query_rule_result(
                self.definition(),
                q,
                *tree,
                source@,
                path@,
                r@,
            )),
            self.definition().taint is None && self.definition().query is None ==> pattern_run(*self, r@, source, path@),
    {
        self.check_parsed_with_graph(tree, source, path, None)
    }
}

/// A taint finding a finding can be placed at: a span that is not reversed,
/// a column that does not overflow, and a start on a character boundary
/// (or past the end of the source).
pub open spec fn placeable_taint(tf: crate::taint::TaintFinding, src: Seq<u8>) -> bool {
    &&& tf.start_byte <= tf.end_byte
    &&& tf.start_column + (tf.end_byte - tf.start_byte) <= usize::MAX
    &&& tf.start_byte >= src.len() || is_char_boundary(src, tf.start_byte as int)
}

/// The placeable taint findings, in order.
pub open spec fn placeable_taints(tfs: Seq<crate::taint::TaintFinding>, src: Seq<u8>) -> Seq<crate::taint::TaintFinding>
    decreases tfs.len(),
{
    if tfs.len() == 0 {
        Seq::empty()
    } else {
        let prev = placeable_taints(tfs.drop_last(), src);
        if placeable_taint(tfs.last(), src) {
            prev.push(tfs.last())
        } else {
            prev
        }
    }
}

/// `f` is the finding of `rule` for taint finding `tf`.
pub open spec fn is_taint_finding(rule: Rule, f: Finding, tf: crate::taint::TaintFinding, path: Seq<char>) -> bool {
    &&& f.rule_id@ == rule.id@
    &&& f.severity == rule.severity
    &&& f.message@ == crate::taint::taint_message(tf.tainted@, tf.sink@)
    &&& f.location.path@ == path
    &&& f.location.start_byte == tf.start_byte
    &&& f.location.end_byte == tf.end_byte
    &&& f.location.start_line == tf.start_line
    &&& f.location.start_column == tf.start_column
}

/// What a taint rule reports: one finding per placeable taint finding, in
/// order, of a run of the taint walk (in the rule's first language, Java
/// when it names none) that meets the walk's contract.
pub open spec fn taint_rule_result(
    rule: Rule,
    config: TaintConfig,
    tree: crate::syntax::SyntaxTree,
    source: Seq<char>,
    path: Seq<char>,
    graph: Option<crate::code_graph::CodeGraph>,
    r: Seq<Finding>,
) -> bool {
    let language = match first_language(rule) {
        Some(l) => l,
        None => Language::Java,
    };
    let src = encode_utf8(source);
    let defs = crate::taint_walk::walk_defs(tree.root, source, language, graph, Some(path));
    exists|tfs: Seq<crate::taint::TaintFinding>|
        #![trigger placeable_taints(tfs, src)]
        crate::taint_walk::sound_findings(config, tfs) && crate::taint_walk::complete_findings(language, tree.root, src, config, tfs)
            && crate::taint_walk::flow_complete(language, tree.root, src, config, tfs) && (forall|k: int|
            0 <= k < tfs.len() ==> crate::taint_walk::tainted_report(language, config, tree.root, src, defs, #[trigger] tfs[k]))
            && r.len() == placeable_taints(tfs, src).len()
            && forall|k: int| 0 <= k < r.len() ==> is_taint_finding(rule, #[trigger] r[k], placeable_taints(tfs, src)[k], path)
}

/// The text of an optional owned string, as a `&str` argument gives it.
pub open spec fn opt_string_text(o: Option<String>) -> Option<Seq<char>> {
    match o {
        Some(s) => Some(s@),
        None => None,
    }
}

/// A query rule cannot run: it declares no language, or an unsupported
/// one, tree-sitter rejects its query, or its `not_regex` does not compile.
pub open spec fn query_fails(rule: Rule, q: QueryRule) -> bool {
    match first_language(rule) {
        None => true,
        Some(l) => l == Language::Unknown || !crate::query::query_compiles(
            l,
            crate::query::split_spec(q.tree_sitter@, 0).0,
        ) || (q.not_regex matches Some(p) && !regex_accepts(p@)),
    }
}

/// A query site a finding can be placed at: positions that fit and a
/// start on a character boundary (or past the end of the source).
pub open spec fn placeable(c: crate::query::Capture, src: Seq<u8>) -> bool {
    &&& c.start_row < usize::MAX && c.start_column < usize::MAX && c.end_row < usize::MAX && c.end_column < usize::MAX
    &&& c.start_byte >= src.len() || is_char_boundary(src, c.start_byte as int)
}

/// The placeable sites, in order.
pub open spec fn placeable_sites(cs: Seq<crate::query::Capture>, src: Seq<u8>) -> Seq<crate::query::Capture>
    decreases cs.len(),
{
    if cs.len() == 0 {
        Seq::empty()
    } else {
        let prev = placeable_sites(cs.drop_last(), src);
        if placeable(cs.last(), src) {
            prev.push(cs.last())
        } else {
            prev
        }
    }
}

/// `f` is the finding of `rule` at query site `c`.
pub open spec fn is_site_finding(rule: Rule, f: Finding, c: crate::query::Capture, source: Seq<u8>, path: Seq<char>) -> bool {
    &&& f.rule_id@ == rule.id@
    &&& f.rule_name@ == rule.name@
    &&& f.message@ == rule.name@
    &&& f.severity == rule.severity
    &&& f.confidence == rule.confidence
    &&& opt_text(f.description) == Some(rule.description@)
    &&& opt_text(f.code_snippet) == Some(spec_line_text(source, c.start_byte as int))
    &&& opt_text(f.recommendation) == opt_text(rule.recommendation)
    &&& opt_text(f.category) == opt_text(rule.category)
    &&& f.language == first_language(rule)
    &&& opt_text(f.cwe) == opt_text(rule.cwe)
    &&& opt_text(f.owasp) == opt_text(rule.owasp)
    &&& opt_text(f.framework) == opt_text(rule.framework)
    &&& f.location.path@ == path
    &&& f.location.start_byte == c.start_byte
    &&& f.location.end_byte == c.end_byte
    &&& f.location.start_line == c.start_row + 1
    &&& f.location.start_column == c.start_column + 1
    &&& f.location.end_line == c.end_row + 1
    &&& f.location.end_column == c.end_column + 1
    &&& f.fingerprint@ == spec_fingerprint(rule.id@, path, (c.start_row + 1) as nat, (c.start_column + 1) as nat)
}

/// What a query rule reports: one `<id>:query-error` finding when the
/// query cannot run, otherwise one finding per placeable query site, in
/// order.
pub open spec fn query_rule_result(
    rule: Rule,
    q: QueryRule,
    tree: crate::syntax::SyntaxTree,
    source: Seq<char>,
    path: Seq<char>,
    r: Seq<Finding>,
) -> bool {
    if query_fails(rule, q) {
        &&& r.len() == 1
        &&& r[0].rule_id@ == rule.id@ + ":query-error"@
        &&& r[0].severity == rule.severity
        &&& "tree-sitter query failed: "@.is_prefix_of(r[0].message@)
        &&& r[0].location.path@ == path
        &&& r[0].location.start_byte == 0 && r[0].location.end_byte == 0
        &&& r[0].location.start_line == 1 && r[0].location.start_column == 1
    } else {
        let sites = placeable_sites(
            crate::query::run_sites(
                tree,
                source,
                q.tree_sitter@,
                opt_string_text(q.anchor),
                opt_string_text(q.not_regex),
                first_language(rule)->0,
            ),
            encode_utf8(source),
        );
        &&& r.len() == sites.len()
        &&& forall|k: int| 0 <= k < r.len() ==> is_site_finding(rule, #[trigger] r[k], sites[k], encode_utf8(source), path)
    }
}

impl PackError {
    /// The error message.
    pub fn to_string(&self) -> (r: String)
        ensures
            r@ == (match self {
                PackError::Read { path, source } => "unable to read pack '"@ + path@ + "': "@ + source@,
                PackError::Parse { path, source } => "unable to parse pack '"@ + path@ + "': "@ + source@,
                PackError::Validate { message } => "invalid pack: "@ + message@,
                PackError::DuplicateId { id, first, second } => "rule id '"@ + id@ + "' defined by both '"@ + first@
                    + "' and '"@ + second@ + "'"@,
            }),
    {
        match self {
            PackError::Read { path, source } => {
                let mut s = "unable to read pack '".to_owned();
                push_str(&mut s, path.as_str());
                push_str(&mut s, "': ");
                push_str(&mut s, source.as_str());
                s
            },
            PackError::Parse { path, source } => {
                let mut s = "unable to parse pack '".to_owned();
                push_str(&mut s, path.as_str());
                push_str(&mut s, "': ");
                push_str(&mut s, source.as_str());
                s
            },
            PackError::Validate { message } => {
                let mut s = "invalid pack: ".to_owned();
                push_str(&mut s, message.as_str());
                s
            },
            PackError::DuplicateId { id, first, second } => {
                let mut s = "rule id '".to_owned();
                push_str(&mut s, id.as_str());
                push_str(&mut s, "' defined by both '");
                push_str(&mut s, first.as_str());
                push_str(&mut s, "' and '");
                push_str(&mut s, second.as_str());
                push_str(&mut s, "'");
                s
            },
        }
    }
}

} // verus!
