//! Structured reports (JSON, SARIF 2.1.0, HTML). Reporters read a scan result
//! and never analyze anything themselves. The JSON and SARIF reports are
//! built here as plain values; turning them into JSON text is the caller's
//! business. The HTML report is rendered here in full.

use vstd::prelude::*;
use vstd::string::*;
use crate::finding::{confidence_label, severity_label, Finding, Severity};
use crate::scan::{FileIssueKind, ScanResult};
use crate::taint::opt_text;
use crate::text::{
    decimal, decimal_padded, push_char, push_decimal, push_decimal_padded, push_decimal_u128,
    push_str, str_eq,
};

verus! {

/// The version string reports carry.
pub const HAWK_VERSION: &'static str = "0.1.0";

#[derive(Debug, PartialEq, Eq)]
pub struct ReportMetadata {
    pub hawk_version: String,
    pub timestamp: String,
    pub rule_packs: Vec<String>,
    pub rule_count: usize,
    pub files_scanned: usize,
    pub files_skipped: usize,
    pub duration_ms: u128,
}

/// A finding as reports show it.
#[derive(Debug, PartialEq, Eq)]
pub struct FindingView {
    pub rule_id: String,
    pub rule_name: String,
    pub severity: String,
    pub confidence: String,
    pub message: String,
    pub file: String,
    pub line: usize,
    pub column: usize,
    pub fingerprint: String,
    pub category: Option<String>,
    pub cwe: Option<String>,
    pub owasp: Option<String>,
    pub code_snippet: Option<String>,
}

/// The view of `view` is exactly that of `finding`.
pub open spec fn shows(view: FindingView, finding: Finding) -> bool {
    &&& view.rule_id@ == finding.rule_id@
    &&& view.rule_name@ == finding.rule_name@
    &&& view.severity@ == severity_label(finding.severity)
    &&& view.confidence@ == confidence_label(finding.confidence)
    &&& view.message@ == finding.message@
    &&& view.file@ == finding.location.path@
    &&& view.line == finding.location.start_line
    &&& view.column == finding.location.start_column
    &&& view.fingerprint@ == finding.fingerprint@
    &&& opt_text(view.category) == opt_text(finding.category)
    &&& opt_text(view.cwe) == opt_text(finding.cwe)
    &&& opt_text(view.owasp) == opt_text(finding.owasp)
    &&& opt_text(view.code_snippet) == opt_text(finding.code_snippet)
}

impl FindingView {
    pub fn from_finding(finding: &Finding) -> (r: FindingView)
        ensures
            shows(r, *finding),
    {
        FindingView {
            rule_id: finding.rule_id.clone(),
            rule_name: finding.rule_name.clone(),
            severity: finding.severity.to_string(),
            confidence: finding.confidence.to_string(),
            message: finding.message.clone(),
            file: finding.location.path.clone(),
            line: finding.location.start_line,
            column: finding.location.start_column,
            fingerprint: finding.fingerprint.clone(),
            category: crate::finding::clone_opt(&finding.category),
            cwe: crate::finding::clone_opt(&finding.cwe),
            owasp: crate::finding::clone_opt(&finding.owasp),
            code_snippet: crate::finding::clone_opt(&finding.code_snippet),
        }
    }
}

/// Number of findings per severity.
#[derive(Debug, Default, PartialEq, Eq)]
pub struct SeveritySummary {
    pub info: usize,
    pub low: usize,
    pub medium: usize,
    pub high: usize,
    pub critical: usize,
}

impl SeveritySummary {
    /// Counts one finding of the severity labelled `severity`; other labels
    /// are ignored.
    pub fn count(&mut self, severity: &str)
        requires
            severity@ == "INFO"@ ==> old(self).info < usize::MAX,
            severity@ == "LOW"@ ==> old(self).low < usize::MAX,
            severity@ == "MEDIUM"@ ==> old(self).medium < usize::MAX,
            severity@ == "HIGH"@ ==> old(self).high < usize::MAX,
            severity@ == "CRITICAL"@ ==> old(self).critical < usize::MAX,
        ensures
            final(self).info == old(self).info + (if severity@ == "INFO"@ { 1int } else { 0 }),
            final(self).low == old(self).low + (if severity@ == "LOW"@ { 1int } else { 0 }),
            final(self).medium == old(self).medium + (if severity@ == "MEDIUM"@ { 1int } else { 0 }),
            final(self).high == old(self).high + (if severity@ == "HIGH"@ { 1int } else { 0 }),
            final(self).critical == old(self).critical + (if severity@ == "CRITICAL"@ { 1int } else { 0 }),
    {
        proof {
            reveal_strlit("INFO");
            reveal_strlit("LOW");
            reveal_strlit("MEDIUM");
            reveal_strlit("HIGH");
            reveal_strlit("CRITICAL");
            assert("INFO"@.len() == 4 && "LOW"@.len() == 3 && "MEDIUM"@.len() == 6 && "HIGH"@.len() == 4
                && "CRITICAL"@.len() == 8);
            assert("INFO"@[0] != "HIGH"@[0]);
        }
        if str_eq(severity, "INFO") {
            self.info = self.info + 1;
        } else if str_eq(severity, "LOW") {
            self.low = self.low + 1;
        } else if str_eq(severity, "MEDIUM") {
            self.medium = self.medium + 1;
        } else if str_eq(severity, "HIGH") {
            self.high = self.high + 1;
        } else if str_eq(severity, "CRITICAL") {
            self.critical = self.critical + 1;
        }
    }
}

/// A file that could not be fully analyzed, as reports show it.
#[derive(Debug, PartialEq, Eq)]
pub struct IssueView {
    pub kind: String,
    pub file: String,
    pub message: String,
}

#[derive(Debug, PartialEq, Eq)]
pub struct JsonReport {
    pub version: String,
    pub severity_summary: SeveritySummary,
    pub findings: Vec<FindingView>,
    pub issues: Vec<IssueView>,
    pub metadata: ReportMetadata,
}

#[derive(Debug, Default)]
pub struct JsonReporter;

#[derive(Debug, Default)]
pub struct SarifReporter;

#[derive(Debug)]
pub struct SarifLog {
    pub schema: String,
    pub version: String,
    pub runs: Vec<SarifRun>,
}

#[derive(Debug)]
pub struct SarifRun {
    pub tool: SarifTool,
    pub results: Vec<SarifResultItem>,
}

#[derive(Debug)]
pub struct SarifTool {
    pub driver: SarifDriver,
}

#[derive(Debug)]
pub struct SarifDriver {
    pub name: String,
    pub semantic_version: String,
    pub rules: Vec<SarifRule>,
}

#[derive(Debug)]
pub struct SarifRule {
    pub id: String,
    pub name: String,
    pub short_description: SarifMessage,
}

#[derive(Debug)]
pub struct SarifMessage {
    pub text: String,
}

#[derive(Debug)]
pub struct SarifResultItem {
    pub rule_id: String,
    pub level: String,
    pub message: SarifMessage,
    pub locations: Vec<SarifLocation>,
}

#[derive(Debug)]
pub struct SarifLocation {
    pub physical_location: SarifPhysical,
}

#[derive(Debug)]
pub struct SarifPhysical {
    pub artifact_location: SarifArtifact,
    pub region: SarifRegion,
}

#[derive(Debug)]
pub struct SarifArtifact {
    pub uri: String,
}

#[derive(Debug)]
pub struct SarifRegion {
    pub start_line: usize,
    pub start_column: usize,
    pub end_line: usize,
    pub end_column: usize,
}

#[derive(Debug, Default)]
pub struct HtmlReporter;

/// The SARIF level of a severity label.
pub open spec fn spec_sarif_level(severity: Seq<char>) -> Seq<char> {
    if severity == "CRITICAL"@ || severity == "HIGH"@ {
        "error"@
    } else if severity == "MEDIUM"@ {
        "warning"@
    } else {
        "note"@
    }
}

/// The SARIF level of a severity label: `error`, `warning` or `note`.
pub fn sarif_level(severity: &str) -> (r: String)
    ensures
        r@ == spec_sarif_level(severity@),
{
    if str_eq(severity, "CRITICAL") || str_eq(severity, "HIGH") {
        "error".to_owned()
    } else if str_eq(severity, "MEDIUM") {
        "warning".to_owned()
    } else {
        "note".to_owned()
    }
}

/// The HTML escape of one character.
pub open spec fn escape_char(c: char) -> Seq<char> {
    if c == '&' {
        "&amp;"@
    } else if c == '<' {
        "&lt;"@
    } else if c == '>' {
        "&gt;"@
    } else if c == '"' {
        "&quot;"@
    } else {
        seq![c]
    }
}

/// `&`, `<`, `>` and `"` replaced by their HTML entities.
pub open spec fn spec_html_escape(s: Seq<char>) -> Seq<char>
    decreases s.len(),
{
    if s.len() == 0 {
        Seq::empty()
    } else {
        spec_html_escape(s.drop_last()) + escape_char(s.last())
    }
}

/// Escapes text for inclusion in HTML.
pub fn html_escape(value: &str) -> (r: String)
    ensures
        r@ == spec_html_escape(value@),
{
    let mut out = String::new();
    let ghost v = value@;
    for c in it: value.chars()
        invariant
            it.seq() == v,
            v == value@,
            out@ == spec_html_escape(v.subrange(0, it.index() as int)),
    {
        proof {
            assert(v.subrange(0, it.index() + 1).drop_last() =~= v.subrange(0, it.index() as int));
        }
        if c == '&' {
            push_str(&mut out, "&amp;");
        } else if c == '<' {
            push_str(&mut out, "&lt;");
        } else if c == '>' {
            push_str(&mut out, "&gt;");
        } else if c == '"' {
            push_str(&mut out, "&quot;");
        } else {
            push_char(&mut out, c);
            assert(out@ =~= spec_html_escape(v.subrange(0, it.index() as int)) + seq![c]);
        }
    }
    proof {
        assert(v.subrange(0, v.len() as int) =~= v);
    }
    out
}

/// Gregorian leap years.
pub open spec fn is_leap(y: int) -> bool {
    (y % 4 == 0 && y % 100 != 0) || y % 400 == 0
}

pub open spec fn year_len(y: int) -> int {
    if is_leap(y) {
        366
    } else {
        365
    }
}

/// Days from 1970-01-01 to the first day of year `y` (`y` >= 1970).
pub open spec fn days_before_year(y: int) -> int
    decreases y - 1970,
{
    if y <= 1970 {
        0
    } else {
        days_before_year(y - 1) + year_len(y - 1)
    }
}

pub open spec fn month_len(y: int, m: int) -> int {
    if m == 2 {
        if is_leap(y) {
            29
        } else {
            28
        }
    } else if m == 4 || m == 6 || m == 9 || m == 11 {
        30
    } else {
        31
    }
}

/// Days from the first of January of year `y` to the first day of month `m`.
pub open spec fn days_before_month(y: int, m: int) -> int
    decreases m,
{
    if m <= 1 {
        0
    } else {
        days_before_month(y, m - 1) + month_len(y, m - 1)
    }
}

/// `y-m-d` is a calendar date from 1970 on.
pub open spec fn is_date(y: int, m: int, d: int) -> bool {
    y >= 1970 && 1 <= m <= 12 && 1 <= d <= month_len(y, m)
}

/// Days from 1970-01-01 to `y-m-d`.
pub open spec fn day_number(y: int, m: int, d: int) -> int {
    days_before_year(y) + days_before_month(y, m) + (d - 1)
}

/// `YYYY-MM-DDTHH:MM:SSZ` (the year has at least four digits).
pub open spec fn rfc3339_text(y: nat, mo: nat, d: nat, h: nat, mi: nat, s: nat) -> Seq<char> {
    decimal_padded(y, 4) + seq!['-'] + decimal_padded(mo, 2) + seq!['-'] + decimal_padded(d, 2)
        + seq!['T'] + decimal_padded(h, 2) + seq![':'] + decimal_padded(mi, 2) + seq![':']
        + decimal_padded(s, 2) + seq!['Z']
}

/// `text` is the UTC timestamp of `secs` seconds after the Unix epoch.
pub open spec fn is_rfc3339_of(text: Seq<char>, secs: nat) -> bool {
    exists|y: int, m: int, d: int|
        #![trigger day_number(y, m, d)]
        is_date(y, m, d) && day_number(y, m, d) == secs / 86400 && text == rfc3339_text(
            y as nat,
            m as nat,
            d as nat,
            (secs % 86400) / 3600,
            (secs % 86400) % 3600 / 60,
            (secs % 86400) % 60,
        )
}

pub open spec fn leaps_before(y: int) -> int {
    (y - 1) / 4 - (y - 1) / 100 + (y - 1) / 400
}

proof fn lemma_leap_step(x: int)
    requires
        x >= 1,
    ensures
        leaps_before(x + 1) - leaps_before(x) == (if is_leap(x) { 1int } else { 0 }),
{
}

proof fn lemma_days_before_year_closed(y: int)
    requires
        y >= 1970,
    ensures
        days_before_year(y) == 365 * (y - 1970) + leaps_before(y) - leaps_before(1970),
    decreases y - 1970,
{
    if y > 1970 {
        lemma_days_before_year_closed(y - 1);
        lemma_leap_step(y - 1);
    }
}

proof fn lemma_cycle(y: int)
    requires
        y >= 1970,
    ensures
        days_before_year(y + 400) == days_before_year(y) + 146097,
{
    lemma_days_before_year_closed(y);
    lemma_days_before_year_closed(y + 400);
    assert((y + 399) / 4 == (y - 1) / 4 + 100) by (nonlinear_arith);
    assert((y + 399) / 100 == (y - 1) / 100 + 4) by (nonlinear_arith);
    assert((y + 399) / 400 == (y - 1) / 400 + 1) by (nonlinear_arith);
    assert(leaps_before(y + 400) == leaps_before(y) + 97);
}

proof fn lemma_cycles(k: nat)
    ensures
        days_before_year((1970 + 400 * k) as int) == 146097 * k,
    decreases k,
{
    if k > 0 {
        lemma_cycles((k - 1) as nat);
        lemma_cycle(1970 + 400 * (k - 1));
    }
}

proof fn lemma_days_before_year_grows(a: int, b: int)
    requires
        1970 <= a <= b,
    ensures
        days_before_year(b) - days_before_year(a) >= 365 * (b - a),
        a < b ==> days_before_year(b) - days_before_year(a) >= year_len(a),
    decreases b - a,
{
    if a < b {
        lemma_days_before_year_grows(a, b - 1);
    }
}

proof fn lemma_year_of_months(y: int)
    ensures
        days_before_month(y, 13) == year_len(y),
{
    reveal_with_fuel(days_before_month, 13);
}

proof fn lemma_days_before_month_grows(y: int, a: int, b: int)
    requires
        1 <= a <= b <= 13,
    ensures
        a < b ==> days_before_month(y, b) - days_before_month(y, a) >= month_len(y, a),
        days_before_month(y, b) >= days_before_month(y, a),
    decreases b - a,
{
    if a < b {
        lemma_days_before_month_grows(y, a, b - 1);
    }
}

/// Every day from 1970 on has exactly one calendar date.
pub proof fn lemma_day_number_unique(y1: int, m1: int, d1: int, y2: int, m2: int, d2: int)
    requires
        is_date(y1, m1, d1),
        is_date(y2, m2, d2),
        day_number(y1, m1, d1) == day_number(y2, m2, d2),
    ensures
        y1 == y2 && m1 == m2 && d1 == d2,
{
    lemma_year_of_months(y1);
    lemma_year_of_months(y2);
    lemma_days_before_month_grows(y1, m1, 13);
    lemma_days_before_month_grows(y2, m2, 13);
    lemma_days_before_month_grows(y1, 1, m1);
    lemma_days_before_month_grows(y2, 1, m2);
    if y1 < y2 {
        lemma_days_before_year_grows(y1, y2);
        assert(false);
    } else if y2 < y1 {
        lemma_days_before_year_grows(y2, y1);
        assert(false);
    }
    if m1 < m2 {
        lemma_days_before_month_grows(y1, m1, m2);
        assert(false);
    } else if m2 < m1 {
        lemma_days_before_month_grows(y1, m2, m1);
        assert(false);
    }
}

fn year_len_exec(y: u64) -> (r: u64)
    ensures
        r == year_len(y as int),
{
    if (y % 4 == 0 && y % 100 != 0) || y % 400 == 0 {
        366
    } else {
        365
    }
}

fn month_len_exec(y: u64, m: u64) -> (r: u64)
    ensures
        r == month_len(y as int, m as int),
{
    if m == 2 {
        if (y % 4 == 0 && y % 100 != 0) || y % 400 == 0 {
            29
        } else {
            28
        }
    } else if m == 4 || m == 6 || m == 9 || m == 11 {
        30
    } else {
        31
    }
}

/// `unix_seconds` after the epoch as an RFC 3339 UTC timestamp
/// (`YYYY-MM-DDTHH:MM:SSZ`, proleptic Gregorian calendar).
pub fn format_rfc3339_utc(unix_seconds: u64) -> (r: String)
    ensures
        is_rfc3339_of(r@, unix_seconds as nat),
{
    let days = unix_seconds / 86400;
    let day_seconds = unix_seconds % 86400;
    let hour = day_seconds / 3600;
    let minute = day_seconds % 3600 / 60;
    let second = day_seconds % 60;
    let cycles = days / 146097;
    assert(days <= 213503982334601) by (nonlinear_arith)
        requires
            days == unix_seconds / 86400,
    ;
    assert(cycles <= days) by (nonlinear_arith)
        requires
            cycles == days / 146097,
    ;
    let mut year: u64 = 1970 + 400 * cycles;
    let mut d: u64 = days % 146097;
    proof {
        lemma_cycles(cycles as nat);
        assert(146097 * cycles + d == days) by (nonlinear_arith)
            requires
                cycles == days / 146097,
                d == days % 146097,
        ;
    }
    let ghost y0 = year as int;
    let ghost d0 = d as int;
    while d >= year_len_exec(year)
        invariant
            y0 == 1970 + 400 * cycles,
            cycles <= 213503982334601,
            d0 < 146097,
            days_before_year(y0) + d0 == days,
            y0 <= year,
            days_before_year(year as int) + d == days,
            days_before_year(year as int) - days_before_year(y0) >= 365 * (year - y0),
        decreases d,
    {
        proof {
            lemma_days_before_year_grows(y0, year as int);
        }
        d = d - year_len_exec(year);
        year = year + 1;
    }
    proof {
        lemma_year_of_months(year as int);
    }
    let ghost dy = d as int;
    let mut month: u64 = 1;
    while d >= month_len_exec(year, month)
        invariant
            1 <= month <= 12,
            dy < year_len(year as int),
            days_before_month(year as int, 13) == year_len(year as int),
            days_before_month(year as int, month as int) + d == dy,
        decreases d,
    {
        proof {
            lemma_days_before_month_grows(year as int, month as int, 13);
        }
        d = d - month_len_exec(year, month);
        month = month + 1;
    }
    let day = d + 1;
    let mut out = String::new();
    push_decimal_padded(&mut out, year, 4);
    push_char(&mut out, '-');
    push_decimal_padded(&mut out, month, 2);
    push_char(&mut out, '-');
    push_decimal_padded(&mut out, day, 2);
    push_char(&mut out, 'T');
    push_decimal_padded(&mut out, hour, 2);
    push_char(&mut out, ':');
    push_decimal_padded(&mut out, minute, 2);
    push_char(&mut out, ':');
    push_decimal_padded(&mut out, second, 2);
    push_char(&mut out, 'Z');
    proof {
        let secs = unix_seconds as nat;
        assert(is_date(year as int, month as int, day as int));
        assert(day_number(year as int, month as int, day as int) == secs / 86400);
        assert(out@ =~= rfc3339_text(
            year as nat,
            month as nat,
            day as nat,
            (secs % 86400) / 3600,
            (secs % 86400) % 3600 / 60,
            (secs % 86400) % 60,
        ));
    }
    out
}

/// Seconds since the Unix epoch according to the system clock (0 when the
/// clock reads earlier than the epoch). Nothing is promised of the value.
#[verifier::external_body]
fn unix_seconds_now() -> u64 {
    std::time::SystemTime::now().duration_since(std::time::UNIX_EPOCH).map_or(0, |d| d.as_secs())
}

/// The current UTC time as an RFC 3339 timestamp.
pub fn now_rfc3339() -> (r: String)
    ensures
        exists|secs: nat| secs <= u64::MAX && #[trigger] is_rfc3339_of(r@, secs),
{
    let secs = unix_seconds_now();
    let r = format_rfc3339_utc(secs);
    assert(is_rfc3339_of(r@, secs as nat));
    r
}

/// Number of findings of severity `sev`.
pub open spec fn count_severity(fs: Seq<Finding>, sev: Severity) -> nat
    decreases fs.len(),
{
    if fs.len() == 0 {
        0
    } else {
        count_severity(fs.drop_last(), sev) + (if fs.last().severity == sev { 1nat } else { 0 })
    }
}

proof fn lemma_count_severity_bound(fs: Seq<Finding>, sev: Severity)
    ensures
        count_severity(fs, sev) <= fs.len(),
    decreases fs.len(),
{
    if fs.len() > 0 {
        lemma_count_severity_bound(fs.drop_last(), sev);
    }
}

/// The severity summary of a list of findings.
pub open spec fn summarizes(summary: SeveritySummary, fs: Seq<Finding>) -> bool {
    &&& summary.info == count_severity(fs, Severity::Info)
    &&& summary.low == count_severity(fs, Severity::Low)
    &&& summary.medium == count_severity(fs, Severity::Medium)
    &&& summary.high == count_severity(fs, Severity::High)
    &&& summary.critical == count_severity(fs, Severity::Critical)
}

/// Counts the severities of `fs`.
fn summarize(fs: &[Finding]) -> (r: SeveritySummary)
    ensures
        summarizes(r, fs@),
{
    let mut summary = SeveritySummary { info: 0, low: 0, medium: 0, high: 0, critical: 0 };
    let mut i: usize = 0;
    proof {
        reveal_strlit("INFO");
        reveal_strlit("LOW");
        reveal_strlit("MEDIUM");
        reveal_strlit("HIGH");
        reveal_strlit("CRITICAL");
        assert("INFO"@.len() == 4 && "LOW"@.len() == 3 && "MEDIUM"@.len() == 6 && "HIGH"@.len() == 4
            && "CRITICAL"@.len() == 8);
        assert("INFO"@[0] != "HIGH"@[0]);
    }
    while i < fs.len()
        invariant
            i <= fs@.len(),
            summarizes(summary, fs@.subrange(0, i as int)),
            "INFO"@.len() == 4 && "LOW"@.len() == 3 && "MEDIUM"@.len() == 6 && "HIGH"@.len() == 4
                && "CRITICAL"@.len() == 8,
            "INFO"@[0] != "HIGH"@[0],
        decreases fs@.len() - i,
    {
        proof {
            let sub = fs@.subrange(0, i + 1);
            assert(sub.drop_last() =~= fs@.subrange(0, i as int));
            assert(sub.last() == fs@[i as int]);
            lemma_count_severity_bound(fs@.subrange(0, i as int), Severity::Info);
            lemma_count_severity_bound(fs@.subrange(0, i as int), Severity::Low);
            lemma_count_severity_bound(fs@.subrange(0, i as int), Severity::Medium);
            lemma_count_severity_bound(fs@.subrange(0, i as int), Severity::High);
            lemma_count_severity_bound(fs@.subrange(0, i as int), Severity::Critical);
        }
        let label = fs[i].severity.to_string();
        summary.count(label.as_str());
        i = i + 1;
    }
    assert(fs@.subrange(0, fs@.len() as int) =~= fs@);
    summary
}

/// The escaped code snippet of a finding (empty when it has none).
pub open spec fn snippet_html(f: Finding) -> Seq<char> {
    match f.code_snippet {
        Some(s) => spec_html_escape(s@),
        None => Seq::empty(),
    }
}

/// `acc` followed by the table row of one finding.
pub open spec fn html_row_onto(acc: Seq<char>, f: Finding) -> Seq<char> {
    acc + "<tr><td>"@ + severity_label(f.severity) + "</td><td><code>"@ + f.rule_id@
        + "</code></td><td>"@ + spec_html_escape(f.message@) + "<br><code>"@ + snippet_html(f)
        + "</code></td><td><code>"@ + spec_html_escape(f.location.path@) + ":"@ + decimal(
        f.location.start_line as nat,
    ) + ":"@ + decimal(f.location.start_column as nat) + "</code></td><td>"@ + spec_html_escape(
        f.rule_name@,
    ) + "</td></tr>\n"@
}

/// The table rows of the findings, in order.
pub open spec fn html_rows(fs: Seq<Finding>) -> Seq<char>
    decreases fs.len(),
{
    if fs.len() == 0 {
        Seq::empty()
    } else {
        html_row_onto(html_rows(fs.drop_last()), fs.last())
    }
}

/// The whole HTML report of `result`, rendered at `timestamp`.
pub open spec fn html_document(result: ScanResult, duration_ms: nat, timestamp: Seq<char>) -> Seq<char> {
    let fs = result.findings.view();
    "<!DOCTYPE html>\n"@ + "<html lang='en'>\n"@ + "<head><meta charset='utf-8'>\n"@
        + "<title>Hawk Security Assessment Report</title>\n"@
        + "<style>body{font-family:system-ui,sans-serif;margin:2rem}table{border-collapse:collapse;width:100%}th,td{border:1px solid #ccc;padding:.5rem;text-align:left}th{background:#f2f2f2}</style>\n"@
        + "</head><body>\n"@ + "<h1>Hawk Security Assessment Report</h1>\n"@ + "<p>Hawk "@
        + HAWK_VERSION@ + " &middot; "@ + decimal(result.discovered_files as nat)
        + " file(s) scanned, "@ + decimal(result.skipped_files as nat) + " skipped &middot; "@
        + decimal(duration_ms) + " ms &middot; "@ + timestamp + "</p>\n"@
        + "<h2>Summary</h2><ul>\n"@ + "<li>Critical: "@ + decimal(
        count_severity(fs, Severity::Critical),
    ) + "</li>\n"@ + "<li>High: "@ + decimal(count_severity(fs, Severity::High)) + "</li>\n"@
        + "<li>Medium: "@ + decimal(count_severity(fs, Severity::Medium)) + "</li>\n"@
        + "<li>Low: "@ + decimal(count_severity(fs, Severity::Low)) + "</li>\n"@ + "<li>Info: "@
        + decimal(count_severity(fs, Severity::Info)) + "</li>\n"@ + "</ul>\n"@
        + "<h2>Findings ("@ + decimal(fs.len()) + ")</h2>\n"@
        + "<table><thead><tr><th>Severity</th><th>Rule</th><th>Message</th><th>Location</th><th>Name</th></tr></thead><tbody>\n"@
        + html_rows(fs) + "\n"@ + "</tbody></table><hr>\n"@
        + "<p><em>Generated by Hawk &mdash; local-first static security analysis.</em></p>\n"@
        + "</body></html>\n"@
}

/// Appends the table row of one finding.
fn push_row(body: &mut String, f: &Finding)
    ensures
        final(body)@ == html_row_onto(old(body)@, *f),
{
    push_str(body, "<tr><td>");
    let sev = f.severity.to_string();
    push_str(body, sev.as_str());
    push_str(body, "</td><td><code>");
    push_str(body, f.rule_id.as_str());
    push_str(body, "</code></td><td>");
    let msg = html_escape(f.message.as_str());
    push_str(body, msg.as_str());
    push_str(body, "<br><code>");
    match &f.code_snippet {
        Some(snippet) => {
            let esc = html_escape(snippet.as_str());
            push_str(body, esc.as_str());
        },
        None => {
            assert(body@ =~= body@ + snippet_html(*f));
        },
    }
    push_str(body, "</code></td><td><code>");
    let file = html_escape(f.location.path.as_str());
    push_str(body, file.as_str());
    push_str(body, ":");
    push_decimal(body, f.location.start_line as u64);
    push_str(body, ":");
    push_decimal(body, f.location.start_column as u64);
    push_str(body, "</code></td><td>");
    let name = html_escape(f.rule_name.as_str());
    push_str(body, name.as_str());
    push_str(body, "</td></tr>\n");
}

/// Renders the table rows of `fs`.
fn render_rows(fs: &[Finding]) -> (r: String)
    ensures
        r@ == html_rows(fs@),
{
    let mut body = String::new();
    let mut i: usize = 0;
    while i < fs.len()
        invariant
            i <= fs@.len(),
            body@ == html_rows(fs@.subrange(0, i as int)),
        decreases fs@.len() - i,
    {
        proof {
            let sub = fs@.subrange(0, i + 1);
            assert(sub.drop_last() =~= fs@.subrange(0, i as int));
            assert(sub.last() == fs@[i as int]);
        }
        push_row(&mut body, &fs[i]);
        i = i + 1;
    }
    assert(fs@.subrange(0, fs@.len() as int) =~= fs@);
    body
}

impl HtmlReporter {
    /// Renders the self-contained HTML report of `result` stamped with
    /// `timestamp`.
    pub fn render_at(&self, result: &ScanResult, duration_ms: u128, timestamp: &str) -> (r: String)
        ensures
            r@ == html_document(*result, duration_ms as nat, timestamp@),
    {
        let fs = result.findings.as_slice();
        let summary = summarize(fs);
        let body = render_rows(fs);
        let mut out = "<!DOCTYPE html>\n".to_owned();
        push_str(&mut out, "<html lang='en'>\n");
        push_str(&mut out, "<head><meta charset='utf-8'>\n");
        push_str(&mut out, "<title>Hawk Security Assessment Report</title>\n");
        push_str(
            &mut out,
            "<style>body{font-family:system-ui,sans-serif;margin:2rem}table{border-collapse:collapse;width:100%}th,td{border:1px solid #ccc;padding:.5rem;text-align:left}th{background:#f2f2f2}</style>\n",
        );
        push_str(&mut out, "</head><body>\n");
        push_str(&mut out, "<h1>Hawk Security Assessment Report</h1>\n");
        push_str(&mut out, "<p>Hawk ");
        push_str(&mut out, HAWK_VERSION);
        push_str(&mut out, " &middot; ");
        push_decimal(&mut out, result.discovered_files as u64);
        push_str(&mut out, " file(s) scanned, ");
        push_decimal(&mut out, result.skipped_files as u64);
        push_str(&mut out, " skipped &middot; ");
        push_decimal_u128(&mut out, duration_ms);
        push_str(&mut out, " ms &middot; ");
        push_str(&mut out, timestamp);
        push_str(&mut out, "</p>\n");
        push_str(&mut out, "<h2>Summary</h2><ul>\n");
        push_str(&mut out, "<li>Critical: ");
        push_decimal(&mut out, summary.critical as u64);
        push_str(&mut out, "</li>\n");
        push_str(&mut out, "<li>High: ");
        push_decimal(&mut out, summary.high as u64);
        push_str(&mut out, "</li>\n");
        push_str(&mut out, "<li>Medium: ");
        push_decimal(&mut out, summary.medium as u64);
        push_str(&mut out, "</li>\n");
        push_str(&mut out, "<li>Low: ");
        push_decimal(&mut out, summary.low as u64);
        push_str(&mut out, "</li>\n");
        push_str(&mut out, "<li>Info: ");
        push_decimal(&mut out, summary.info as u64);
        push_str(&mut out, "</li>\n");
        push_str(&mut out, "</ul>\n");
        push_str(&mut out, "<h2>Findings (");
        push_decimal(&mut out, fs.len() as u64);
        push_str(&mut out, ")</h2>\n");
        push_str(
            &mut out,
            "<table><thead><tr><th>Severity</th><th>Rule</th><th>Message</th><th>Location</th><th>Name</th></tr></thead><tbody>\n",
        );
        push_str(&mut out, body.as_str());
        push_str(&mut out, "\n");
        push_str(&mut out, "</tbody></table><hr>\n");
        push_str(
            &mut out,
            "<p><em>Generated by Hawk &mdash; local-first static security analysis.</em></p>\n",
        );
        push_str(&mut out, "</body></html>\n");
        out
    }

    /// Renders the self-contained HTML report of `result`, stamped with the
    /// current time.
    pub fn render(&self, result: &ScanResult, duration_ms: u128) -> (r: String)
        ensures
            exists|secs: nat, ts: Seq<char>|
                #![trigger is_rfc3339_of(ts, secs)]
                secs <= u64::MAX && is_rfc3339_of(ts, secs) && r@ == html_document(
                    *result,
                    duration_ms as nat,
                    ts,
                ),
    {
        let timestamp = now_rfc3339();
        let r = self.render_at(result, duration_ms, timestamp.as_str());
        assert(r@ == html_document(*result, duration_ms as nat, timestamp@));
        let ghost secs = choose|secs: nat| secs <= u64::MAX && #[trigger] is_rfc3339_of(timestamp@, secs);
        assert(secs <= u64::MAX && is_rfc3339_of(timestamp@, secs));
        r
    }
}

pub open spec fn issue_kind_label(k: FileIssueKind) -> Seq<char> {
    match k {
        FileIssueKind::Read => "read"@,
        FileIssueKind::Parse => "parse"@,
    }
}

pub open spec fn strings_of(v: Seq<String>) -> Seq<Seq<char>> {
    v.map_values(|x: String| x@)
}

/// `meta` describes `result` for a report made at `timestamp`.
pub open spec fn metadata_of(meta: ReportMetadata, result: ScanResult, duration_ms: nat, timestamp: Seq<char>) -> bool {
    &&& meta.hawk_version@ == HAWK_VERSION@
    &&& meta.timestamp@ == timestamp
    &&& strings_of(meta.rule_packs@) == strings_of(result.pack_names@)
    &&& meta.rule_count == result.rule_count
    &&& meta.files_scanned == result.scanned_files
    &&& meta.files_skipped == result.skipped_files
    &&& meta.duration_ms == duration_ms
}

/// `rep` is the JSON report of `result` made at `timestamp`.
pub open spec fn json_report_of(rep: JsonReport, result: ScanResult, duration_ms: nat, timestamp: Seq<char>) -> bool {
    let fs = result.findings.view();
    &&& rep.version@ == "1.0"@
    &&& summarizes(rep.severity_summary, fs)
    &&& rep.findings@.len() == fs.len()
    &&& forall|i: int| 0 <= i < fs.len() ==> shows(#[trigger] rep.findings@[i], fs[i])
    &&& rep.issues@.len() == result.issues@.len()
    &&& forall|i: int|
        0 <= i < result.issues@.len() ==> {
            &&& (#[trigger] rep.issues@[i]).kind@ == issue_kind_label(result.issues@[i].kind)
            &&& rep.issues@[i].file@ == result.issues@[i].path@
            &&& rep.issues@[i].message@ == result.issues@[i].message@
        }
    &&& metadata_of(rep.metadata, result, duration_ms, timestamp)
}

fn clone_strings(v: &Vec<String>) -> (r: Vec<String>)
    ensures
        strings_of(r@) == strings_of(v@),
{
    let mut out: Vec<String> = Vec::new();
    let mut i: usize = 0;
    while i < v.len()
        invariant
            i <= v@.len(),
            strings_of(out@) == strings_of(v@).subrange(0, i as int),
        decreases v@.len() - i,
    {
        let ghost prev = out@;
        out.push(v[i].clone());
        assert(strings_of(out@) =~= strings_of(prev).push(v@[i as int]@));
        i = i + 1;
        assert(strings_of(out@) =~= strings_of(v@).subrange(0, i as int));
    }
    assert(strings_of(v@).subrange(0, v@.len() as int) =~= strings_of(v@));
    out
}

impl ReportMetadata {
    /// The metadata of a report on `result`, made at `timestamp`.
    pub fn from_scan(result: &ScanResult, duration_ms: u128, timestamp: &str) -> (r: ReportMetadata)
        ensures
            metadata_of(r, *result, duration_ms as nat, timestamp@),
    {
        ReportMetadata {
            hawk_version: HAWK_VERSION.to_owned(),
            timestamp: timestamp.to_owned(),
            rule_packs: clone_strings(&result.pack_names),
            rule_count: result.rule_count,
            files_scanned: result.scanned_files,
            files_skipped: result.skipped_files,
            duration_ms,
        }
    }
}

impl JsonReporter {
    /// The JSON report of `result`, made at `timestamp`.
    pub fn report_at(&self, result: &ScanResult, duration_ms: u128, timestamp: &str) -> (r: JsonReport)
        ensures
            json_report_of(r, *result, duration_ms as nat, timestamp@),
    {
        let fs = result.findings.as_slice();
        let summary = summarize(fs);
        let mut views: Vec<FindingView> = Vec::new();
        let mut i: usize = 0;
        while i < fs.len()
            invariant
                i <= fs@.len(),
                views@.len() == i,
                forall|k: int| 0 <= k < i ==> shows(#[trigger] views@[k], fs@[k]),
            decreases fs@.len() - i,
        {
            views.push(FindingView::from_finding(&fs[i]));
            i = i + 1;
        }
        let mut issues: Vec<IssueView> = Vec::new();
        let mut k: usize = 0;
        while k < result.issues.len()
            invariant
                k <= result.issues@.len(),
                issues@.len() == k,
                forall|m: int|
                    0 <= m < k ==> {
                        &&& (#[trigger] issues@[m]).kind@ == issue_kind_label(result.issues@[m].kind)
                        &&& issues@[m].file@ == result.issues@[m].path@
                        &&& issues@[m].message@ == result.issues@[m].message@
                    },
            decreases result.issues@.len() - k,
        {
            let issue = &result.issues[k];
            let kind = match issue.kind {
                FileIssueKind::Read => "read".to_owned(),
                FileIssueKind::Parse => "parse".to_owned(),
            };
            issues.push(IssueView { kind, file: issue.path.clone(), message: issue.message.clone() });
            k = k + 1;
        }
        proof {
            reveal_strlit("1.0");
        }
        JsonReport {
            version: "1.0".to_owned(),
            severity_summary: summary,
            findings: views,
            issues,
            metadata: ReportMetadata::from_scan(result, duration_ms, timestamp),
        }
    }

    /// The JSON report of `result`, stamped with the current time.
    pub fn report(&self, result: &ScanResult, duration_ms: u128) -> (r: JsonReport)
        ensures
            exists|secs: nat, ts: Seq<char>|
                #![trigger is_rfc3339_of(ts, secs)]
                secs <= u64::MAX && is_rfc3339_of(ts, secs) && json_report_of(r, *result, duration_ms as nat, ts),
    {
        let timestamp = now_rfc3339();
        let r = self.report_at(result, duration_ms, timestamp.as_str());
        let ghost secs = choose|secs: nat| secs <= u64::MAX && #[trigger] is_rfc3339_of(timestamp@, secs);
        assert(secs <= u64::MAX && is_rfc3339_of(timestamp@, secs));
        r
    }
}

/// Whether `rules` already holds a rule with id `id`.
pub open spec fn has_rule(rules: Seq<(Seq<char>, Seq<char>, Seq<char>)>, id: Seq<char>) -> bool {
    exists|k: int| 0 <= k < rules.len() && (#[trigger] rules[k]).0 == id
}

/// The description of a finding, or empty text.
pub open spec fn description_text(f: Finding) -> Seq<char> {
    match f.description {
        Some(d) => d@,
        None => Seq::empty(),
    }
}

/// The SARIF rules of the findings: one per rule id, in the order of first
/// appearance, with the name and description of that first finding.
pub open spec fn sarif_rules(fs: Seq<Finding>) -> Seq<(Seq<char>, Seq<char>, Seq<char>)>
    decreases fs.len(),
{
    if fs.len() == 0 {
        Seq::empty()
    } else {
        let prev = sarif_rules(fs.drop_last());
        let f = fs.last();
        if has_rule(prev, f.rule_id@) {
            prev
        } else {
            prev.push((f.rule_id@, f.rule_name@, description_text(f)))
        }
    }
}

pub open spec fn rule_view(r: SarifRule) -> (Seq<char>, Seq<char>, Seq<char>) {
    (r.id@, r.name@, r.short_description.text@)
}

/// `item` is the SARIF result of finding `f`.
pub open spec fn sarif_result_of(item: SarifResultItem, f: Finding) -> bool {
    &&& item.rule_id@ == f.rule_id@
    &&& item.level@ == spec_sarif_level(severity_label(f.severity))
    &&& item.message.text@ == f.message@
    &&& item.locations@.len() == 1
    &&& item.locations@[0].physical_location.artifact_location.uri@ == f.location.path@
    &&& item.locations@[0].physical_location.region.start_line == f.location.start_line
    &&& item.locations@[0].physical_location.region.start_column == f.location.start_column
    &&& item.locations@[0].physical_location.region.end_line == f.location.end_line
    &&& item.locations@[0].physical_location.region.end_column == f.location.end_column
}

/// `log` is the SARIF 2.1.0 log of `result`.
pub open spec fn sarif_log_of(log: SarifLog, result: ScanResult) -> bool {
    let fs = result.findings.view();
    &&& log.schema@ == "https://json.schemastore.org/sarif-2.1.0.json"@
    &&& log.version@ == "2.1.0"@
    &&& log.runs@.len() == 1
    &&& log.runs@[0].tool.driver.name@ == "hawk"@
    &&& log.runs@[0].tool.driver.semantic_version@ == HAWK_VERSION@
    &&& log.runs@[0].tool.driver.rules@.map_values(|r: SarifRule| rule_view(r)) == sarif_rules(fs)
    &&& log.runs@[0].results@.len() == fs.len()
    &&& forall|i: int| 0 <= i < fs.len() ==> sarif_result_of(#[trigger] log.runs@[0].results@[i], fs[i])
}

fn rule_index(rules: &Vec<SarifRule>, id: &String) -> (r: bool)
    ensures
        r == has_rule(rules@.map_values(|x: SarifRule| rule_view(x)), id@),
{
    let ghost rv = rules@.map_values(|x: SarifRule| rule_view(x));
    let mut k: usize = 0;
    while k < rules.len()
        invariant
            k <= rules@.len(),
            rv == rules@.map_values(|x: SarifRule| rule_view(x)),
            forall|m: int| 0 <= m < k ==> (#[trigger] rv[m]).0 != id@,
        decreases rules@.len() - k,
    {
        if rules[k].id == *id {
            assert(rv[k as int].0 == id@);
            return true;
        }
        k = k + 1;
    }
    false
}

impl SarifReporter {
    /// The SARIF 2.1.0 log of `result`.
    pub fn log(&self, result: &ScanResult) -> (r: SarifLog)
        ensures
            sarif_log_of(r, *result),
    {
        let fs = result.findings.as_slice();
        let mut rules: Vec<SarifRule> = Vec::new();
        let mut i: usize = 0;
        proof {
            assert(rules@.map_values(|x: SarifRule| rule_view(x)) =~= sarif_rules(fs@.subrange(0, 0)));
        }
        while i < fs.len()
            invariant
                i <= fs@.len(),
                rules@.map_values(|x: SarifRule| rule_view(x)) == sarif_rules(fs@.subrange(0, i as int)),
            decreases fs@.len() - i,
        {
            let f = &fs[i];
            proof {
                let sub = fs@.subrange(0, i + 1);
                assert(sub.drop_last() =~= fs@.subrange(0, i as int));
                assert(sub.last() == *f);
            }
            if !rule_index(&rules, &f.rule_id) {
                let text = match &f.description {
                    Some(d) => d.clone(),
                    None => String::new(),
                };
                let rule = SarifRule {
                    id: f.rule_id.clone(),
                    name: f.rule_name.clone(),
                    short_description: SarifMessage { text },
                };
                let ghost prev = rules@;
                rules.push(rule);
                assert(rules@.map_values(|x: SarifRule| rule_view(x)) =~= prev.map_values(
                    |x: SarifRule| rule_view(x),
                ).push((f.rule_id@, f.rule_name@, description_text(*f))));
            }
            i = i + 1;
        }
        assert(fs@.subrange(0, fs@.len() as int) =~= fs@);
        let mut results: Vec<SarifResultItem> = Vec::new();
        let mut k: usize = 0;
        while k < fs.len()
            invariant
                k <= fs@.len(),
                results@.len() == k,
                forall|m: int| 0 <= m < k ==> sarif_result_of(#[trigger] results@[m], fs@[m]),
            decreases fs@.len() - k,
        {
            let f = &fs[k];
            let sev = f.severity.to_string();
            let region = SarifRegion {
                start_line: f.location.start_line,
                start_column: f.location.start_column,
                end_line: f.location.end_line,
                end_column: f.location.end_column,
            };
            let location = SarifLocation {
                physical_location: SarifPhysical {
                    artifact_location: SarifArtifact { uri: f.location.path.clone() },
                    region,
                },
            };
            let mut locations: Vec<SarifLocation> = Vec::new();
            locations.push(location);
            results.push(
                SarifResultItem {
                    rule_id: f.rule_id.clone(),
                    level: sarif_level(sev.as_str()),
                    message: SarifMessage { text: f.message.clone() },
                    locations,
                },
            );
            k = k + 1;
        }
        let driver = SarifDriver {
            name: "hawk".to_owned(),
            semantic_version: HAWK_VERSION.to_owned(),
            rules,
        };
        let run = SarifRun { tool: SarifTool { driver }, results };
        let mut runs: Vec<SarifRun> = Vec::new();
        runs.push(run);
        SarifLog {
            schema: "https://json.schemastore.org/sarif-2.1.0.json".to_owned(),
            version: "2.1.0".to_owned(),
            runs,
        }
    }
}

} // verus!
