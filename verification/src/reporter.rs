//! The compact, human-readable terminal report.

use vstd::prelude::*;
use vstd::string::*;
use crate::finding::{severity_label, Finding};
use crate::scan::{FileIssue, FileIssueKind, ScanResult};
use crate::text::{decimal, push_decimal, push_str};

verus! {

/// Renders a scan result as a terminal report.
#[derive(Debug, Default)]
pub struct TerminalReporter;

pub open spec fn issue_line_onto(acc: Seq<char>, issue: FileIssue) -> Seq<char> {
    acc + "warning: "@ + (match issue.kind {
        FileIssueKind::Read => "read error"@,
        FileIssueKind::Parse => "parse error"@,
    }) + " in "@ + issue.path@ + ": "@ + issue.message@ + "\n"@
}

pub open spec fn issue_lines(issues: Seq<FileIssue>) -> Seq<char>
    decreases issues.len(),
{
    if issues.len() == 0 {
        Seq::empty()
    } else {
        issue_line_onto(issue_lines(issues.drop_last()), issues.last())
    }
}

/// `acc` followed by the three lines describing a finding.
pub open spec fn finding_lines_onto(acc: Seq<char>, f: Finding) -> Seq<char> {
    acc + severity_label(f.severity) + " "@ + f.location.path@ + ":"@ + decimal(
        f.location.start_line as nat,
    ) + ":"@ + decimal(f.location.start_column as nat) + "\n"@ + "  "@ + f.rule_id@ + "\n"@
        + "  "@ + f.message@ + "\n"@
}

pub open spec fn findings_lines(acc: Seq<char>, fs: Seq<Finding>) -> Seq<char>
    decreases fs.len(),
{
    if fs.len() == 0 {
        acc
    } else {
        finding_lines_onto(findings_lines(acc, fs.drop_last()), fs.last())
    }
}

/// The terminal report of `result`: issue warnings, then findings, then the
/// two summary lines.
pub open spec fn terminal_text(result: ScanResult) -> Seq<char> {
    let count = result.findings.view().len();
    findings_lines(issue_lines(result.issues@), result.findings.view()) + decimal(count) + " "@ + (if count
        == 1 {
        "finding"@
    } else {
        "findings"@
    }) + " in "@ + decimal(result.discovered_files as nat) + " file(s)"@ + (if result.issues@.len()
        > 0 {
        " (degraded: results are incomplete)"@
    } else {
        ""@
    }) + "\n"@ + decimal(result.skipped_files as nat) + " file(s) skipped ("@ + decimal(
        result.issues@.len(),
    ) + " issue(s) resolved by ignoring them"@ + "\n"@
}

/// Appends the lines describing one finding.
pub fn render_finding(output: &mut String, finding: &Finding)
    ensures
        final(output)@ == finding_lines_onto(old(output)@, *finding),
{
    let sev = finding.severity.to_string();
    push_str(output, sev.as_str());
    push_str(output, " ");
    push_str(output, finding.location.path.as_str());
    push_str(output, ":");
    push_decimal(output, finding.location.start_line as u64);
    push_str(output, ":");
    push_decimal(output, finding.location.start_column as u64);
    push_str(output, "\n");
    push_str(output, "  ");
    push_str(output, finding.rule_id.as_str());
    push_str(output, "\n");
    push_str(output, "  ");
    push_str(output, finding.message.as_str());
    push_str(output, "\n");
}

impl TerminalReporter {
    pub fn render(&self, result: &ScanResult) -> (r: String)
        ensures
            r@ == terminal_text(*result),
    {
        let mut output = String::new();
        let mut i: usize = 0;
        while i < result.issues.len()
            invariant
                i <= result.issues@.len(),
                output@ == issue_lines(result.issues@.subrange(0, i as int)),
            decreases result.issues@.len() - i,
        {
            let issue = &result.issues[i];
            proof {
                let sub = result.issues@.subrange(0, i + 1);
                assert(sub.drop_last() =~= result.issues@.subrange(0, i as int));
                assert(sub.last() == *issue);
            }
            push_str(&mut output, "warning: ");
            match issue.kind {
                FileIssueKind::Read => push_str(&mut output, "read error"),
                FileIssueKind::Parse => push_str(&mut output, "parse error"),
            }
            push_str(&mut output, " in ");
            push_str(&mut output, issue.path.as_str());
            push_str(&mut output, ": ");
            push_str(&mut output, issue.message.as_str());
            push_str(&mut output, "\n");
            i = i + 1;
        }
        assert(result.issues@.subrange(0, result.issues@.len() as int) =~= result.issues@);
        let ghost head = output@;
        let fs = result.findings.as_slice();
        let mut k: usize = 0;
        while k < fs.len()
            invariant
                k <= fs@.len(),
                output@ == findings_lines(head, fs@.subrange(0, k as int)),
            decreases fs@.len() - k,
        {
            proof {
                let sub = fs@.subrange(0, k + 1);
                assert(sub.drop_last() =~= fs@.subrange(0, k as int));
                assert(sub.last() == fs@[k as int]);
            }
            render_finding(&mut output, &fs[k]);
            k = k + 1;
        }
        assert(fs@.subrange(0, fs@.len() as int) =~= fs@);
        let count = fs.len();
        push_decimal(&mut output, count as u64);
        push_str(&mut output, " ");
        if count == 1 {
            push_str(&mut output, "finding");
        } else {
            push_str(&mut output, "findings");
        }
        push_str(&mut output, " in ");
        push_decimal(&mut output, result.discovered_files as u64);
        push_str(&mut output, " file(s)");
        if result.degraded() {
            push_str(&mut output, " (degraded: results are incomplete)");
        } else {
            push_str(&mut output, "");
        }
        push_str(&mut output, "\n");
        push_decimal(&mut output, result.skipped_files as u64);
        push_str(&mut output, " file(s) skipped (");
        push_decimal(&mut output, result.issues.len() as u64);
        push_str(&mut output, " issue(s) resolved by ignoring them");
        push_str(&mut output, "\n");
        output
    }
}

} // verus!
