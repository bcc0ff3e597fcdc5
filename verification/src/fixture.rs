//! Rule fixtures with inline expectations.
//!
//! A fixture line holding `ruleid: <id>` announces that a finding of rule
//! `<id>` must be reported on that line or the next one; `ok: <id>` announces
//! that none may be. Annotations naming rules that are not run are reported.

use vstd::prelude::*;
use vstd::string::*;
use crate::finding::Finding;
use crate::text::{
    chars_of, contains_seq, find_chars_in, is_first_occurrence_from, is_whitespace, is_ws,
    leading_ws, lemma_leading_ws, no_occurrence_from, occurs_at, push_decimal, push_str,
    string_from_chars, decimal,
};

verus! {

#[derive(Debug, Clone, Copy, PartialEq, Eq, Structural)]
pub enum AnnotationKind {
    /// A finding is expected.
    RuleId,
    /// No finding may appear (an `ok:` annotation).
    Clean,
}

#[derive(Debug, PartialEq, Eq)]
pub struct Annotation {
    pub kind: AnnotationKind,
    pub rule_id: String,
    /// 1-based line of the annotation comment.
    pub line: usize,
}

#[derive(Debug, PartialEq, Eq)]
pub enum TestVerdict {
    Pass,
    /// Expected finding that was not reported.
    Expected { rule_id: String, line: usize },
    /// Reported finding that an annotation said must not exist.
    Unexpected { rule_id: String, line: usize },
    /// Fixture references a rule that is not run.
    UnknownRule { rule_id: String },
}

/// Index of the first `'\n'` in `s`, or its length.
pub open spec fn line_end(s: Seq<char>) -> nat
    decreases s.len(),
{
    if s.len() == 0 {
        0
    } else if s[0] == '\n' {
        0
    } else {
        1 + line_end(s.drop_first())
    }
}

pub proof fn lemma_line_end_bound(s: Seq<char>)
    ensures
        line_end(s) <= s.len(),
    decreases s.len(),
{
    if s.len() > 0 && s[0] != '\n' {
        lemma_line_end_bound(s.drop_first());
    }
}

/// `str::lines`: pieces between `'\n'`s, a `'\r'` before a `'\n'` removed,
/// and no final empty piece after a trailing line break.
pub open spec fn split_lines(s: Seq<char>) -> Seq<Seq<char>>
    decreases s.len(),
{
    if s.len() == 0 {
        Seq::empty()
    } else {
        let k = line_end(s) as int;
        proof {
            lemma_line_end_bound(s);
        }
        if k < s.len() {
            let raw = s.subrange(0, k);
            let line = if raw.len() > 0 && raw.last() == '\r' { raw.drop_last() } else { raw };
            seq![line] + split_lines(s.subrange(k + 1, s.len() as int))
        } else {
            seq![s]
        }
    }
}

/// The first whitespace-separated word of `s` (empty when there is none).
pub open spec fn first_word(s: Seq<char>) -> Seq<char> {
    let rest = s.subrange(leading_ws(s) as int, s.len() as int);
    rest.subrange(0, word_len(rest) as int)
}

/// Length of the run of non-whitespace characters at the start of `s`.
pub open spec fn word_len(s: Seq<char>) -> nat
    decreases s.len(),
{
    if s.len() > 0 && !is_ws(s[0]) {
        1 + word_len(s.drop_first())
    } else {
        0
    }
}

/// The annotation a marker produces on one line, if any.
pub open spec fn marker_annotation(
    line: Seq<char>,
    marker: Seq<char>,
    kind: AnnotationKind,
    number: nat,
) -> Seq<(AnnotationKind, Seq<char>, nat)> {
    if contains_seq(line, marker) {
        let pos = choose|i: int| is_first_occurrence_from(line, marker, 0, i);
        let word = first_word(line.subrange(pos + marker.len(), line.len() as int));
        if word.len() > 0 { seq![(kind, word, number)] } else { Seq::empty() }
    } else {
        Seq::empty()
    }
}

pub open spec fn line_annotations(line: Seq<char>, number: nat) -> Seq<(AnnotationKind, Seq<char>, nat)> {
    marker_annotation(line, "ruleid:"@, AnnotationKind::RuleId, number)
        + marker_annotation(line, "ok:"@, AnnotationKind::Clean, number)
}

/// The annotations of `lines`, whose first line has number `first`.
pub open spec fn lines_annotations(lines: Seq<Seq<char>>, first: nat) -> Seq<(AnnotationKind, Seq<char>, nat)>
    decreases lines.len(),
{
    if lines.len() == 0 {
        Seq::empty()
    } else {
        line_annotations(lines[0], first) + lines_annotations(lines.drop_first(), first + 1)
    }
}

pub open spec fn spec_annotations(source: Seq<char>) -> Seq<(AnnotationKind, Seq<char>, nat)> {
    lines_annotations(split_lines(source), 1)
}

pub open spec fn annotation_view(a: Annotation) -> (AnnotationKind, Seq<char>, nat) {
    (a.kind, a.rule_id@, a.line as nat)
}

/// What a verdict says, over plain sequences.
pub enum VerdictView {
    Pass,
    Expected(Seq<char>, nat),
    Unexpected(Seq<char>, nat),
    UnknownRule(Seq<char>),
}

impl View for TestVerdict {
    type V = VerdictView;

    open spec fn view(&self) -> VerdictView {
        match self {
            TestVerdict::Pass => VerdictView::Pass,
            TestVerdict::Expected { rule_id, line } => VerdictView::Expected(rule_id@, *line as nat),
            TestVerdict::Unexpected { rule_id, line } => VerdictView::Unexpected(rule_id@, *line as nat),
            TestVerdict::UnknownRule { rule_id } => VerdictView::UnknownRule(rule_id@),
        }
    }
}

impl Clone for Annotation {
    fn clone(&self) -> (r: Self)
        ensures
            annotation_view(r) == annotation_view(*self),
    {
        Annotation { kind: self.kind, rule_id: self.rule_id.clone(), line: self.line }
    }
}

pub open spec fn annotation_views(anns: Seq<Annotation>) -> Seq<(AnnotationKind, Seq<char>, nat)> {
    anns.map_values(|a: Annotation| annotation_view(a))
}

pub open spec fn verdict_views(vs: Seq<TestVerdict>) -> Seq<VerdictView> {
    vs.map_values(|v: TestVerdict| v@)
}

/// The (rule id, start line) of each finding.
pub open spec fn finding_keys(fs: Seq<Finding>) -> Seq<(Seq<char>, nat)> {
    fs.map_values(|f: Finding| (f.rule_id@, f.location.start_line as nat))
}

proof fn lemma_line_end(s: Seq<char>, k: int)
    requires
        0 <= k <= s.len(),
        forall|j: int| 0 <= j < k ==> s[j] != '\n',
        k == s.len() || s[k] == '\n',
    ensures
        line_end(s) == k,
    decreases k,
{
    if k > 0 {
        assert forall|j: int| 0 <= j < k - 1 implies s.drop_first()[j] != '\n' by {
            assert(s.drop_first()[j] == s[j + 1]);
        }
        lemma_line_end(s.drop_first(), k - 1);
    }
}

proof fn lemma_word_len(s: Seq<char>, k: int)
    requires
        0 <= k <= s.len(),
        forall|j: int| 0 <= j < k ==> !is_ws(s[j]),
        k == s.len() || is_ws(s[k]),
    ensures
        word_len(s) == k,
    decreases k,
{
    if k > 0 {
        assert forall|j: int| 0 <= j < k - 1 implies !is_ws(s.drop_first()[j]) by {
            assert(s.drop_first()[j] == s[j + 1]);
        }
        lemma_word_len(s.drop_first(), k - 1);
    }
}

/// Bounds, inside `cs`, of the first word of `cs[from..end]`.
fn first_word_range(cs: &[char], from: usize, end: usize) -> (r: (usize, usize))
    requires
        from <= end <= cs@.len(),
    ensures
        from <= r.0 <= r.1 <= end,
        cs@.subrange(r.0 as int, r.1 as int) == first_word(cs@.subrange(from as int, end as int)),
{
    let ghost s = cs@.subrange(from as int, end as int);
    let mut a = from;
    while a < end && is_whitespace(cs[a])
        invariant
            from <= a <= end <= cs@.len(),
            s == cs@.subrange(from as int, end as int),
            forall|j: int| from <= j < a ==> is_ws(cs@[j]),
        decreases end - a,
    {
        a = a + 1;
    }
    proof {
        lemma_leading_ws(s, a - from);
        if a < end {
            assert(s.subrange(a - from, s.len() as int)[0] == cs@[a as int]);
        }
        assert(leading_ws(s.subrange(a - from, s.len() as int)) == 0);
    }
    let ghost rest = s.subrange(a - from, s.len() as int);
    let mut b = a;
    while b < end && !is_whitespace(cs[b])
        invariant
            from <= a <= b <= end <= cs@.len(),
            rest == cs@.subrange(a as int, end as int),
            forall|j: int| a <= j < b ==> !is_ws(cs@[j]),
        decreases end - b,
    {
        b = b + 1;
    }
    proof {
        assert(rest =~= cs@.subrange(a as int, end as int));
        lemma_word_len(rest, b - a);
        assert(rest.subrange(0, (b - a) as int) =~= cs@.subrange(a as int, b as int));
    }
    (a, b)
}

/// Adds the annotation that `marker` produces on `line`, if any.
fn annotate_line(
    line: &[char],
    marker: &[char],
    kind: AnnotationKind,
    number: usize,
    out: &mut Vec<Annotation>,
)
    ensures
        annotation_views(final(out)@) == annotation_views(old(out)@) + marker_annotation(
            line@,
            marker@,
            kind,
            number as nat,
        ),
{
    let ghost l = line@;
    proof {
        assert(l.subrange(0, l.len() as int) =~= l);
    }
    match find_chars_in(line, marker, 0, line.len()) {
        Some(pos) => {
            proof {
                assert(occurs_at(l, marker@, pos as int));
                assert(contains_seq(l, marker@));
                let p = choose|i: int| is_first_occurrence_from(l, marker@, 0, i);
                assert(is_first_occurrence_from(l, marker@, 0, p));
                if p < pos {
                    assert(!occurs_at(l, marker@, p));
                } else if pos < p {
                    assert(!occurs_at(l, marker@, pos as int));
                }
                assert(p == pos);
            }
            let (a, b) = first_word_range(line, pos + marker.len(), line.len());
            if a < b {
                let ann = Annotation { kind, rule_id: string_from_chars(line, a, b), line: number };
                let ghost before = out@;
                out.push(ann);
                assert(annotation_views(out@) =~= annotation_views(before).push(annotation_view(ann)));
            } else {
                assert(annotation_views(out@) =~= annotation_views(out@) + Seq::empty());
            }
        },
        None => {
            proof {
                if contains_seq(l, marker@) {
                    let i = choose|i: int| occurs_at(l, marker@, i);
                    assert(!occurs_at(l, marker@, i));
                }
            }
            assert(annotation_views(out@) =~= annotation_views(out@) + Seq::empty());
        },
    }
}

/// Extracts the `ruleid:` and `ok:` annotations of a fixture, in line order
/// and, within a line, `ruleid:` before `ok:`.
pub fn parse_annotations(source: &str) -> (r: Vec<Annotation>)
    ensures
        annotation_views(r@) == spec_annotations(source@),
{
    let cs = chars_of(source);
    let ruleid = chars_of("ruleid:");
    let ok = chars_of("ok:");
    let n = cs.len();
    let mut out: Vec<Annotation> = Vec::new();
    let mut start: usize = 0;
    let mut lines_done: usize = 0;
    proof {
        assert(cs@.subrange(0, n as int) =~= cs@);
        assert(annotation_views(out@) =~= Seq::empty());
    }
    while start < n
        invariant
            start <= n == cs@.len(),
            cs@ == source@,
            ruleid@ == "ruleid:"@,
            ok@ == "ok:"@,
            lines_done <= start,
            annotation_views(out@) + lines_annotations(
                split_lines(cs@.subrange(start as int, n as int)),
                lines_done as nat + 1,
            ) == spec_annotations(source@),
        decreases n - start,
    {
        let ghost rest = cs@.subrange(start as int, n as int);
        let number = lines_done + 1;
        let mut e = start;
        while e < n && cs[e] != '\n'
            invariant
                start <= e <= n == cs@.len(),
                forall|j: int| start <= j < e ==> cs@[j] != '\n',
            decreases n - e,
        {
            e = e + 1;
        }
        proof {
            assert forall|j: int| 0 <= j < e - start implies rest[j] != '\n' by {
                assert(rest[j] == cs@[start + j]);
            }
            lemma_line_end(rest, e - start);
        }
        let stop = if e < n && e > start && cs[e - 1] == '\r' {
            e - 1
        } else {
            e
        };
        let line = vstd::slice::slice_subrange(cs.as_slice(), start, stop);
        let ghost before = annotation_views(out@);
        annotate_line(line, ruleid.as_slice(), AnnotationKind::RuleId, number, &mut out);
        annotate_line(line, ok.as_slice(), AnnotationKind::Clean, number, &mut out);
        proof {
            let k = e - start;
            let tail = if e < n { rest.subrange(k + 1, rest.len() as int) } else { Seq::<char>::empty() };
            if e < n {
                let raw = rest.subrange(0, k);
                assert(raw =~= cs@.subrange(start as int, e as int));
                if stop < e {
                    assert(raw.drop_last() =~= line@);
                } else {
                    assert(raw =~= line@);
                }
                assert(tail =~= cs@.subrange(e + 1, n as int));
                assert(split_lines(rest) == seq![line@] + split_lines(tail));
            } else {
                assert(rest =~= line@);
                assert(split_lines(rest) == seq![line@]);
            }
            let ls = seq![line@] + split_lines(tail);
            assert(ls.drop_first() =~= split_lines(tail));
            assert(ls[0] == line@);
            assert(split_lines(Seq::<char>::empty()) =~= Seq::<Seq<char>>::empty());
            assert(lines_annotations(split_lines(rest), number as nat) == line_annotations(line@, number as nat)
                + lines_annotations(split_lines(tail), number as nat + 1));
            assert(annotation_views(out@) == before + line_annotations(line@, number as nat));
            assert(before + (line_annotations(line@, number as nat) + lines_annotations(split_lines(tail), number as nat + 1))
                =~= (before + line_annotations(line@, number as nat)) + lines_annotations(split_lines(tail), number as nat + 1));
        }
        if e < n {
            lines_done = lines_done + 1;
            start = e + 1;
        } else {
            start = n;
            proof {
                assert(cs@.subrange(n as int, n as int) =~= Seq::<char>::empty());
            }
        }
    }
    out
}

/// Start lines of the findings of rule `id` reported on `line` or on the
/// line after it, in the order of `fs`.
pub open spec fn matching_lines(id: Seq<char>, line: nat, fs: Seq<(Seq<char>, nat)>) -> Seq<nat>
    decreases fs.len(),
{
    if fs.len() == 0 {
        Seq::empty()
    } else {
        let prev = matching_lines(id, line, fs.drop_last());
        let f = fs.last();
        if f.0 == id && (f.1 == line || f.1 == line + 1) {
            prev.push(f.1)
        } else {
            prev
        }
    }
}

/// The verdicts one annotation produces; `known` tells whether its rule is run.
pub open spec fn annotation_verdicts(
    ann: (AnnotationKind, Seq<char>, nat),
    fs: Seq<(Seq<char>, nat)>,
    known: bool,
) -> Seq<VerdictView> {
    let hits = matching_lines(ann.1, ann.2, fs);
    let own = match ann.0 {
        AnnotationKind::RuleId => if hits.len() == 0 {
            seq![VerdictView::Expected(ann.1, ann.2)]
        } else {
            Seq::empty()
        },
        AnnotationKind::Clean => hits.map_values(|l: nat| VerdictView::Unexpected(ann.1, l)),
    };
    if known {
        own
    } else {
        own.push(VerdictView::UnknownRule(ann.1))
    }
}

/// The failing verdicts of a fixture run, in annotation order.
pub open spec fn spec_evaluate(
    anns: Seq<(AnnotationKind, Seq<char>, nat)>,
    fs: Seq<(Seq<char>, nat)>,
    known: Seq<bool>,
) -> Seq<VerdictView>
    decreases anns.len(),
{
    if anns.len() == 0 {
        Seq::empty()
    } else {
        spec_evaluate(anns.drop_last(), fs, known.drop_last()) + annotation_verdicts(
            anns.last(),
            fs,
            known.last(),
        )
    }
}

/// Start lines of the findings that bear on one annotation.
fn hits_for(ann: &Annotation, findings: &[Finding]) -> (r: Vec<usize>)
    ensures
        r@.map_values(|x: usize| x as nat) == matching_lines(
            ann.rule_id@,
            ann.line as nat,
            finding_keys(findings@),
        ),
{
    let ghost fk = finding_keys(findings@);
    let mut hits: Vec<usize> = Vec::new();
    let mut j: usize = 0;
    proof {
        assert(fk.subrange(0, 0) =~= Seq::<(Seq<char>, nat)>::empty());
        assert(hits@.map_values(|x: usize| x as nat) =~= Seq::<nat>::empty());
    }
    while j < findings.len()
        invariant
            j <= findings@.len(),
            fk == finding_keys(findings@),
            hits@.map_values(|x: usize| x as nat) == matching_lines(
                ann.rule_id@,
                ann.line as nat,
                fk.subrange(0, j as int),
            ),
        decreases findings@.len() - j,
    {
        let f = &findings[j];
        let at = f.location.start_line;
        proof {
            assert(fk.subrange(0, j + 1).drop_last() =~= fk.subrange(0, j as int));
            assert(fk.subrange(0, j + 1).last() == (f.rule_id@, at as nat));
        }
        if f.rule_id == ann.rule_id && (at == ann.line || (ann.line < usize::MAX && at == ann.line + 1)) {
            let ghost before = hits@;
            hits.push(at);
            assert(hits@.map_values(|x: usize| x as nat) =~= before.map_values(|x: usize| x as nat).push(
                at as nat,
            ));
        }
        j = j + 1;
    }
    proof {
        assert(fk.subrange(0, findings@.len() as int) =~= fk);
    }
    hits
}

/// Checks findings against annotations, given for each annotation whether
/// its rule is run. Returns the failing verdicts in annotation order (empty
/// when the fixture passes).
pub fn evaluate_known(annotations: &[Annotation], findings: &[Finding], known: &[bool]) -> (r: Vec<
    TestVerdict,
>)
    requires
        known@.len() == annotations@.len(),
    ensures
        verdict_views(r@) == spec_evaluate(
            annotation_views(annotations@),
            finding_keys(findings@),
            known@,
        ),
{
    let ghost av = annotation_views(annotations@);
    let ghost fk = finding_keys(findings@);
    let mut out: Vec<TestVerdict> = Vec::new();
    let mut i: usize = 0;
    proof {
        assert(verdict_views(out@) =~= Seq::<VerdictView>::empty());
    }
    while i < annotations.len()
        invariant
            i <= annotations@.len() == known@.len(),
            av == annotation_views(annotations@),
            fk == finding_keys(findings@),
            verdict_views(out@) == spec_evaluate(
                av.subrange(0, i as int),
                fk,
                known@.subrange(0, i as int),
            ),
        decreases annotations@.len() - i,
    {
        let ann = &annotations[i];
        let ghost base = verdict_views(out@);
        let hits = hits_for(ann, findings);
        let ghost hn = hits@.map_values(|x: usize| x as nat);
        match ann.kind {
            AnnotationKind::RuleId => {
                if hits.len() == 0 {
                    out.push(TestVerdict::Expected { rule_id: ann.rule_id.clone(), line: ann.line });
                    assert(verdict_views(out@) =~= base + seq![
                        VerdictView::Expected(ann.rule_id@, ann.line as nat),
                    ]);
                } else {
                    assert(verdict_views(out@) =~= base + Seq::<VerdictView>::empty());
                }
            },
            AnnotationKind::Clean => {
                let mut k: usize = 0;
                proof {
                    assert(verdict_views(out@) =~= base + hn.subrange(0, 0).map_values(
                        |l: nat| VerdictView::Unexpected(ann.rule_id@, l),
                    ));
                }
                while k < hits.len()
                    invariant
                        k <= hits@.len(),
                        hn == hits@.map_values(|x: usize| x as nat),
                        verdict_views(out@) == base + hn.subrange(0, k as int).map_values(
                            |l: nat| VerdictView::Unexpected(ann.rule_id@, l),
                        ),
                    decreases hits@.len() - k,
                {
                    let ghost prev = out@;
                    let v = TestVerdict::Unexpected { rule_id: ann.rule_id.clone(), line: hits[k] };
                    out.push(v);
                    proof {
                        let f = |l: nat| VerdictView::Unexpected(ann.rule_id@, l);
                        assert(verdict_views(out@) =~= verdict_views(prev).push(v@));
                        assert(hn[k as int] == hits@[k as int] as nat);
                        assert(v@ == f(hn[k as int]));
                        assert(hn.subrange(0, k + 1) =~= hn.subrange(0, k as int).push(hn[k as int]));
                        assert(hn.subrange(0, k + 1).map_values(f) =~= hn.subrange(0, k as int).map_values(f).push(f(hn[k as int])));
                    }
                    k = k + 1;
                }
                assert(hn.subrange(0, hits@.len() as int) =~= hn);
            },
        }
        let ghost own = match ann.kind {
            AnnotationKind::RuleId => if hn.len() == 0 {
                seq![VerdictView::Expected(ann.rule_id@, ann.line as nat)]
            } else {
                Seq::empty()
            },
            AnnotationKind::Clean => hn.map_values(|l: nat| VerdictView::Unexpected(ann.rule_id@, l)),
        };
        assert(verdict_views(out@) == base + own);
        let ghost mid = out@;
        if !known[i] {
            let v = TestVerdict::UnknownRule { rule_id: ann.rule_id.clone() };
            out.push(v);
            assert(verdict_views(out@) =~= verdict_views(mid).push(v@));
            assert(verdict_views(out@) =~= base + own.push(v@));
        }
        proof {
            assert(av.subrange(0, i + 1).drop_last() =~= av.subrange(0, i as int));
            assert(av.subrange(0, i + 1).last() == annotation_view(*ann));
            assert(known@.subrange(0, i + 1).drop_last() =~= known@.subrange(0, i as int));
            assert(known@.subrange(0, i + 1).last() == known@[i as int]);
            assert(verdict_views(out@) =~= base + annotation_verdicts(annotation_view(*ann), fk, known@[i as int]));
        }
        i = i + 1;
    }
    proof {
        assert(av.subrange(0, annotations@.len() as int) =~= av);
        assert(known@.subrange(0, annotations@.len() as int) =~= known@);
    }
    out
}

/// `b` is an answer `known_rule` can give for the rule id `id`.
pub open spec fn answers<F: Fn(&str) -> bool>(known_rule: F, id: Seq<char>, b: bool) -> bool {
    exists|s: &str| s@ == id && call_ensures(known_rule, (s,), b)
}

/// `flags` holds, for each annotation, an answer `known_rule` gave for its
/// rule id.
pub open spec fn answered_by<F: Fn(&str) -> bool>(known_rule: F, anns: Seq<Annotation>, flags: Seq<bool>) -> bool {
    &&& flags.len() == anns.len()
    &&& forall|i: int| 0 <= i < anns.len() ==> #[trigger] answers(known_rule, anns[i].rule_id@, flags[i])
}

/// Checks `findings` against the fixture annotations. Returns the failing
/// verdicts in annotation order (empty = pass); `known_rule` flags
/// annotations that reference rules which are not run.
pub fn evaluate(annotations: &[Annotation], findings: &[Finding], known_rule: impl Fn(&str) -> bool) -> (r: Vec<TestVerdict>)
    requires
        forall|s: &str| call_requires(known_rule, (s,)),
    ensures
        exists|flags: Seq<bool>|
            answered_by(known_rule, annotations@, flags) && verdict_views(r@) == spec_evaluate(
                annotation_views(annotations@),
                finding_keys(findings@),
                flags,
            ),
{
    let mut flags: Vec<bool> = Vec::new();
    let mut i: usize = 0;
    while i < annotations.len()
        invariant
            i <= annotations@.len(),
            flags@.len() == i,
            forall|s: &str| call_requires(known_rule, (s,)),
            forall|j: int| 0 <= j < i ==> #[trigger] answers(known_rule, annotations@[j].rule_id@, flags@[j]),
        decreases annotations@.len() - i,
    {
        let id = annotations[i].rule_id.as_str();
        let b = known_rule(id);
        let ghost prev = flags@;
        flags.push(b);
        proof {
            assert(id@ == annotations@[i as int].rule_id@ && call_ensures(known_rule, (id,), b));
            assert(answers(known_rule, annotations@[i as int].rule_id@, b));
            assert forall|j: int| 0 <= j < i + 1 implies #[trigger] answers(known_rule, annotations@[j].rule_id@, flags@[j]) by {
                if j < i {
                    assert(flags@[j] == prev[j]);
                }
            }
        }
        i = i + 1;
    }
    let r = evaluate_known(annotations, findings, flags.as_slice());
    assert(answered_by(known_rule, annotations@, flags@));
    r
}

/// The one-line description of a verdict.
pub open spec fn spec_verdict_line(v: VerdictView) -> Seq<char> {
    match v {
        VerdictView::Pass => "pass"@,
        VerdictView::Expected(id, line) => "- expected finding '"@ + id + "' at line "@ + decimal(line)
            + " but none reported"@,
        VerdictView::Unexpected(id, line) => "+ unexpected finding '"@ + id + "' at line "@ + decimal(
            line,
        ) + " (annotated ok)"@,
        VerdictView::UnknownRule(id) => "? annotation references unknown rule '"@ + id + "'"@,
    }
}

/// Compact summary of a verdict (one dash-line per verdict, for CLI output).
pub fn verdict_line(verdict: &TestVerdict) -> (r: String)
    ensures
        r@ == spec_verdict_line(verdict@),
{
    match verdict {
        TestVerdict::Pass => "pass".to_owned(),
        TestVerdict::Expected { rule_id, line } => {
            let mut s = "- expected finding '".to_owned();
            push_str(&mut s, rule_id.as_str());
            push_str(&mut s, "' at line ");
            push_decimal(&mut s, *line as u64);
            push_str(&mut s, " but none reported");
            s
        },
        TestVerdict::Unexpected { rule_id, line } => {
            let mut s = "+ unexpected finding '".to_owned();
            push_str(&mut s, rule_id.as_str());
            push_str(&mut s, "' at line ");
            push_decimal(&mut s, *line as u64);
            push_str(&mut s, " (annotated ok)");
            s
        },
        TestVerdict::UnknownRule { rule_id } => {
            let mut s = "? annotation references unknown rule '".to_owned();
            push_str(&mut s, rule_id.as_str());
            push_str(&mut s, "'");
            s
        },
    }
}

} // verus!
