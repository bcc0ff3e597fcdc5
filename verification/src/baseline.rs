//! File-based baseline.
//!
//! A baseline records the fingerprints of known findings. On a later scan,
//! findings whose fingerprints are in the baseline are "existing"; the others
//! are "new". A baseline fingerprint that no longer appears is "fixed". The
//! baseline lives in the local data directory (`.hawk/baseline.json`); reading
//! and writing it is the caller's business.

use crate::text::push_str;
use vstd::prelude::*;
use vstd::string::*;
use crate::finding::Finding;
use crate::paths::{join_path, spec_join};

verus! {

#[derive(Debug, PartialEq, Eq, Default)]
pub struct Baseline {
    pub fingerprints: Vec<String>,
}

/// Why a baseline could not be read, parsed or written.
#[derive(Debug, PartialEq, Eq)]
pub enum BaselineError {
    Read { path: String, source: String },
    Parse { path: String, source: String },
    Write { path: String, source: String },
}

/// Classification of scan findings against a baseline.
#[derive(Debug, PartialEq, Eq, Default)]
pub struct BaselineStatus {
    /// Fingerprints present in the baseline but not found in this scan.
    pub fixed: Vec<String>,
    /// Findings of this scan that are not in the baseline.
    pub new: Vec<Finding>,
    /// Findings of this scan whose fingerprints are in the baseline.
    pub existing: Vec<Finding>,
}

pub open spec fn strings_view(v: Seq<String>) -> Seq<Seq<char>> {
    v.map_values(|s: String| s@)
}

pub open spec fn fingerprints_of(fs: Seq<Finding>) -> Seq<Seq<char>> {
    fs.map_values(|f: Finding| f.fingerprint@)
}

/// The elements of `s` without repetitions, each at its first occurrence.
pub open spec fn distinct(s: Seq<Seq<char>>) -> Seq<Seq<char>>
    decreases s.len(),
{
    if s.len() == 0 {
        Seq::empty()
    } else {
        let prev = distinct(s.drop_last());
        if prev.contains(s.last()) {
            prev
        } else {
            prev.push(s.last())
        }
    }
}

/// The findings of `fs` whose fingerprint is (`inside`) or is not in `known`,
/// in order.
pub open spec fn select(fs: Seq<Finding>, known: Set<Seq<char>>, inside: bool) -> Seq<Finding>
    decreases fs.len(),
{
    if fs.len() == 0 {
        Seq::empty()
    } else {
        let prev = select(fs.drop_last(), known, inside);
        if known.contains(fs.last().fingerprint@) == inside {
            prev.push(fs.last())
        } else {
            prev
        }
    }
}

/// The elements of `s` that do not occur in `present`, in order.
pub open spec fn absent(s: Seq<Seq<char>>, present: Seq<Seq<char>>) -> Seq<Seq<char>>
    decreases s.len(),
{
    if s.len() == 0 {
        Seq::empty()
    } else {
        let prev = absent(s.drop_last(), present);
        if present.contains(s.last()) {
            prev
        } else {
            prev.push(s.last())
        }
    }
}

impl Baseline {
    /// The set of fingerprints the baseline records.
    pub open spec fn fingerprint_set(&self) -> Set<Seq<char>> {
        strings_view(self.fingerprints@).to_set()
    }

    /// A baseline recording the fingerprints of `findings`, in order.
    pub fn from_findings(findings: &[Finding]) -> (r: Baseline)
        ensures
            strings_view(r.fingerprints@) == fingerprints_of(findings@),
    {
        let mut fps: Vec<String> = Vec::new();
        let mut i: usize = 0;
        while i < findings.len()
            invariant
                i <= findings@.len(),
                strings_view(fps@) == fingerprints_of(findings@).subrange(0, i as int),
            decreases findings@.len() - i,
        {
            let ghost prev = fps@;
            let fp = findings[i].fingerprint.clone();
            fps.push(fp);
            assert(strings_view(fps@) =~= strings_view(prev).push(findings@[i as int].fingerprint@));
            i = i + 1;
            assert(strings_view(fps@) =~= fingerprints_of(findings@).subrange(0, i as int));
        }
        assert(fingerprints_of(findings@).subrange(0, findings@.len() as int) =~= fingerprints_of(findings@));
        Baseline { fingerprints: fps }
    }

    /// Whether the baseline records `fingerprint`.
    pub fn contains(&self, fingerprint: &str) -> (r: bool)
        ensures
            r == self.fingerprint_set().contains(fingerprint@),
    {
        let mut i: usize = 0;
        while i < self.fingerprints.len()
            invariant
                i <= self.fingerprints@.len(),
                forall|j: int| 0 <= j < i ==> self.fingerprints@[j]@ != fingerprint@,
            decreases self.fingerprints@.len() - i,
        {
            if crate::text::str_eq(self.fingerprints[i].as_str(), fingerprint) {
                assert(strings_view(self.fingerprints@)[i as int] == fingerprint@);
                return true;
            }
            i = i + 1;
        }
        proof {
            if strings_view(self.fingerprints@).contains(fingerprint@) {
                let k = choose|k: int| 0 <= k < strings_view(self.fingerprints@).len() && strings_view(self.fingerprints@)[k] == fingerprint@;
                assert(self.fingerprints@[k]@ != fingerprint@);
            }
        }
        false
    }

    /// The recorded fingerprints without repetitions, in first-seen order.
    pub fn set_of(&self) -> (r: Vec<String>)
        ensures
            strings_view(r@) == distinct(strings_view(self.fingerprints@)),
    {
        let ghost sv = strings_view(self.fingerprints@);
        let mut out: Vec<String> = Vec::new();
        let mut i: usize = 0;
        proof {
            assert(sv.subrange(0, 0) =~= Seq::<Seq<char>>::empty());
            assert(strings_view(out@) =~= Seq::<Seq<char>>::empty());
        }
        while i < self.fingerprints.len()
            invariant
                i <= self.fingerprints@.len(),
                sv == strings_view(self.fingerprints@),
                strings_view(out@) == distinct(sv.subrange(0, i as int)),
            decreases self.fingerprints@.len() - i,
        {
            let fp = &self.fingerprints[i];
            let mut seen = false;
            let mut k: usize = 0;
            while k < out.len()
                invariant
                    k <= out@.len(),
                    seen == exists|m: int| 0 <= m < k && out@[m]@ == fp@,
                decreases out@.len() - k,
            {
                if out[k] == *fp {
                    seen = true;
                }
                k = k + 1;
            }
            proof {
                assert(sv.subrange(0, i + 1).drop_last() =~= sv.subrange(0, i as int));
                assert(sv.subrange(0, i + 1).last() == fp@);
                if seen {
                    let m = choose|m: int| 0 <= m < out@.len() && out@[m]@ == fp@;
                    assert(strings_view(out@)[m] == fp@);
                } else {
                    assert forall|m: int| 0 <= m < strings_view(out@).len() implies strings_view(out@)[m] != fp@ by {
                        assert(strings_view(out@)[m] == out@[m]@);
                    }
                }
            }
            if !seen {
                let ghost prev = out@;
                out.push(fp.clone());
                assert(strings_view(out@) =~= strings_view(prev).push(fp@));
            }
            i = i + 1;
        }
        assert(sv.subrange(0, self.fingerprints@.len() as int) =~= sv);
        out
    }
}

/// The baseline path of a project root (`<root>/.hawk/baseline.json`).
pub fn baseline_path(root: &str) -> (r: String)
    ensures
        r@ == spec_join(spec_join(root@, ".hawk"@), "baseline.json"@),
{
    let dir = join_path(root, ".hawk");
    join_path(dir.as_str(), "baseline.json")
}

/// Whether some finding of `fs` has fingerprint `fp`.
fn fingerprint_present(fs: &[Finding], fp: &String) -> (r: bool)
    ensures
        r == fingerprints_of(fs@).contains(fp@),
{
    let mut i: usize = 0;
    while i < fs.len()
        invariant
            i <= fs@.len(),
            forall|j: int| 0 <= j < i ==> fs@[j].fingerprint@ != fp@,
        decreases fs@.len() - i,
    {
        if fs[i].fingerprint == *fp {
            assert(fingerprints_of(fs@)[i as int] == fp@);
            return true;
        }
        i = i + 1;
    }
    proof {
        if fingerprints_of(fs@).contains(fp@) {
            let k = choose|k: int| 0 <= k < fingerprints_of(fs@).len() && fingerprints_of(fs@)[k] == fp@;
            assert(fs@[k].fingerprint@ != fp@);
        }
    }
    false
}

/// Classifies the findings of a run against `baseline`: `existing` and `new`
/// split the findings in order; `fixed` lists, once each and in baseline
/// order, the recorded fingerprints that no finding carries.
pub fn classify(baseline: &Baseline, findings: &[Finding]) -> (r: BaselineStatus)
    ensures
        r.existing@ == select(findings@, baseline.fingerprint_set(), true),
        r.new@ == select(findings@, baseline.fingerprint_set(), false),
        strings_view(r.fixed@) == absent(
            distinct(strings_view(baseline.fingerprints@)),
            fingerprints_of(findings@),
        ),
{
    let known = baseline.set_of();
    let ghost ks = baseline.fingerprint_set();
    let mut existing: Vec<Finding> = Vec::new();
    let mut new: Vec<Finding> = Vec::new();
    let mut i: usize = 0;
    while i < findings.len()
        invariant
            i <= findings@.len(),
            ks == baseline.fingerprint_set(),
            existing@ == select(findings@.subrange(0, i as int), ks, true),
            new@ == select(findings@.subrange(0, i as int), ks, false),
        decreases findings@.len() - i,
    {
        let f = &findings[i];
        proof {
            assert(findings@.subrange(0, i + 1).drop_last() =~= findings@.subrange(0, i as int));
            assert(findings@.subrange(0, i + 1).last() == *f);
        }
        if baseline.contains(f.fingerprint.as_str()) {
            existing.push(f.clone());
        } else {
            new.push(f.clone());
        }
        i = i + 1;
    }
    assert(findings@.subrange(0, findings@.len() as int) =~= findings@);
    let ghost kv = strings_view(known@);
    let mut fixed: Vec<String> = Vec::new();
    let mut k: usize = 0;
    proof {
        assert(kv.subrange(0, 0) =~= Seq::<Seq<char>>::empty());
        assert(strings_view(fixed@) =~= Seq::<Seq<char>>::empty());
    }
    while k < known.len()
        invariant
            k <= known@.len(),
            kv == strings_view(known@),
            strings_view(fixed@) == absent(kv.subrange(0, k as int), fingerprints_of(findings@)),
        decreases known@.len() - k,
    {
        proof {
            assert(kv.subrange(0, k + 1).drop_last() =~= kv.subrange(0, k as int));
            assert(kv.subrange(0, k + 1).last() == known@[k as int]@);
        }
        if !fingerprint_present(findings, &known[k]) {
            let ghost prev = fixed@;
            fixed.push(known[k].clone());
            assert(strings_view(fixed@) =~= strings_view(prev).push(known@[k as int]@));
        }
        k = k + 1;
    }
    assert(kv.subrange(0, known@.len() as int) =~= kv);
    BaselineStatus { fixed, new, existing }
}

/// Every finding lands in exactly one of `existing` (fingerprint known) and
/// `new` (fingerprint unknown); nothing else lands in either.
pub proof fn lemma_classification_partitions(fs: Seq<Finding>, known: Set<Seq<char>>)
    ensures
        select(fs, known, true).len() + select(fs, known, false).len() == fs.len(),
        forall|i: int|
            0 <= i < select(fs, known, true).len() ==> known.contains(
                #[trigger] select(fs, known, true)[i].fingerprint@,
            ) && fs.contains(select(fs, known, true)[i]),
        forall|i: int|
            0 <= i < select(fs, known, false).len() ==> !known.contains(
                #[trigger] select(fs, known, false)[i].fingerprint@,
            ) && fs.contains(select(fs, known, false)[i]),
        forall|i: int|
            0 <= i < fs.len() ==> (known.contains(fs[i].fingerprint@) ==> select(fs, known, true).contains(
                #[trigger] fs[i],
            )) && (!known.contains(fs[i].fingerprint@) ==> select(fs, known, false).contains(fs[i])),
    decreases fs.len(),
{
    if fs.len() > 0 {
        let init = fs.drop_last();
        lemma_classification_partitions(init, known);
        let yes = select(fs, known, true);
        let no = select(fs, known, false);
        let yes0 = select(init, known, true);
        let no0 = select(init, known, false);
        assert(yes == (if known.contains(fs.last().fingerprint@) { yes0.push(fs.last()) } else { yes0 }));
        assert(no == (if !known.contains(fs.last().fingerprint@) { no0.push(fs.last()) } else { no0 }));
        assert forall|i: int| 0 <= i < yes.len() implies known.contains(#[trigger] yes[i].fingerprint@) && fs.contains(yes[i]) by {
            if i < yes0.len() {
                assert(yes[i] == yes0[i]);
                assert(0 <= i < select(init, known, true).len());
                assert(known.contains(select(init, known, true)[i].fingerprint@));
                assert(init.contains(yes0[i]));
                let k = choose|k: int| 0 <= k < init.len() && init[k] == yes0[i];
                assert(fs[k] == init[k]);
            } else {
                assert(fs[fs.len() - 1] == fs.last());
            }
        }
        assert forall|i: int| 0 <= i < no.len() implies !known.contains(#[trigger] no[i].fingerprint@) && fs.contains(no[i]) by {
            if i < no0.len() {
                assert(no[i] == no0[i]);
                assert(0 <= i < select(init, known, false).len());
                assert(!known.contains(select(init, known, false)[i].fingerprint@));
                assert(init.contains(no0[i]));
                let k = choose|k: int| 0 <= k < init.len() && init[k] == no0[i];
                assert(fs[k] == init[k]);
            } else {
                assert(fs[fs.len() - 1] == fs.last());
            }
        }
        assert forall|i: int| 0 <= i < fs.len() implies (known.contains(fs[i].fingerprint@) ==> yes.contains(#[trigger] fs[i]))
            && (!known.contains(fs[i].fingerprint@) ==> no.contains(fs[i])) by {
            if i < fs.len() - 1 {
                assert(fs[i] == init[i]);
                if known.contains(fs[i].fingerprint@) {
                    let k = choose|k: int| 0 <= k < yes0.len() && yes0[k] == init[i];
                    assert(yes[k] == yes0[k]);
                } else {
                    let k = choose|k: int| 0 <= k < no0.len() && no0[k] == init[i];
                    assert(no[k] == no0[k]);
                }
            } else {
                if known.contains(fs[i].fingerprint@) {
                    assert(yes[yes.len() - 1] == fs[i]);
                } else {
                    assert(no[no.len() - 1] == fs[i]);
                }
            }
        }
    }
}

/// `distinct` keeps exactly the elements of its input, once each.
pub proof fn lemma_distinct(s: Seq<Seq<char>>)
    ensures
        distinct(s).no_duplicates(),
        forall|x: Seq<char>| #[trigger] distinct(s).contains(x) <==> s.contains(x),
    decreases s.len(),
{
    if s.len() > 0 {
        let init = s.drop_last();
        lemma_distinct(init);
        let d = distinct(s);
        let d0 = distinct(init);
        assert(d == (if d0.contains(s.last()) { d0 } else { d0.push(s.last()) }));
        assert forall|x: Seq<char>| #[trigger] d.contains(x) <==> s.contains(x) by {
            if d.contains(x) {
                let k = choose|k: int| 0 <= k < d.len() && d[k] == x;
                if k < d0.len() {
                    assert(d0[k] == x);
                    assert(d0.contains(x));
                    let j = choose|j: int| 0 <= j < init.len() && init[j] == x;
                    assert(s[j] == x);
                } else {
                    assert(s[s.len() - 1] == x);
                }
            }
            if s.contains(x) {
                let j = choose|j: int| 0 <= j < s.len() && s[j] == x;
                if j < s.len() - 1 {
                    assert(init[j] == x);
                    assert(init.contains(x));
                    assert(d0.contains(x));
                    let k = choose|k: int| 0 <= k < d0.len() && d0[k] == x;
                    assert(d[k] == x);
                } else if !d0.contains(x) {
                    assert(d[d.len() - 1] == x);
                }
            }
        }
    }
}

/// `absent` keeps, in order, the elements of `s` that are not in `present`;
/// it adds no repetition.
pub proof fn lemma_absent(s: Seq<Seq<char>>, present: Seq<Seq<char>>)
    ensures
        forall|x: Seq<char>| #[trigger] absent(s, present).contains(x) <==> (s.contains(x) && !present.contains(x)),
        s.no_duplicates() ==> absent(s, present).no_duplicates(),
    decreases s.len(),
{
    if s.len() > 0 {
        let init = s.drop_last();
        lemma_absent(init, present);
        let a = absent(s, present);
        let a0 = absent(init, present);
        assert(a == (if present.contains(s.last()) { a0 } else { a0.push(s.last()) }));
        assert forall|x: Seq<char>| #[trigger] a.contains(x) <==> (s.contains(x) && !present.contains(x)) by {
            if a.contains(x) {
                let k = choose|k: int| 0 <= k < a.len() && a[k] == x;
                if k < a0.len() {
                    assert(a0[k] == x);
                    assert(a0.contains(x));
                    let j = choose|j: int| 0 <= j < init.len() && init[j] == x;
                    assert(s[j] == x);
                } else {
                    assert(s[s.len() - 1] == x);
                }
            }
            if s.contains(x) && !present.contains(x) {
                let j = choose|j: int| 0 <= j < s.len() && s[j] == x;
                if j < s.len() - 1 {
                    assert(init[j] == x);
                    assert(init.contains(x));
                    assert(a0.contains(x));
                    let k = choose|k: int| 0 <= k < a0.len() && a0[k] == x;
                    assert(a[k] == x);
                } else {
                    assert(a[a.len() - 1] == x);
                }
            }
        }
        if s.no_duplicates() {
            assert(init.no_duplicates()) by {
                assert forall|i: int, j: int| 0 <= i < init.len() && 0 <= j < init.len() && i != j implies init[i] != init[j] by {
                    assert(init[i] == s[i] && init[j] == s[j]);
                }
            }
            if !present.contains(s.last()) {
                assert(!init.contains(s.last())) by {
                    if init.contains(s.last()) {
                        let j = choose|j: int| 0 <= j < init.len() && init[j] == s.last();
                        assert(s[j] == s[s.len() - 1]);
                    }
                }
                assert(!a0.contains(s.last()));
                assert forall|i: int, j: int| 0 <= i < a.len() && 0 <= j < a.len() && i != j implies a[i] != a[j] by {
                    if i < a0.len() && j < a0.len() {
                        assert(a[i] == a0[i] && a[j] == a0[j]);
                    } else if i < a0.len() {
                        assert(a[i] == a0[i]);
                        assert(a0.contains(a0[i]));
                    } else {
                        assert(a[j] == a0[j]);
                        assert(a0.contains(a0[j]));
                    }
                }
            }
        }
    }
}

/// `fixed` holds, once each, exactly the baseline fingerprints that no
/// finding of the scan carries.
pub proof fn lemma_fixed_fingerprints(baseline: Seq<Seq<char>>, present: Seq<Seq<char>>)
    ensures
        absent(distinct(baseline), present).no_duplicates(),
        forall|x: Seq<char>|
            #[trigger] absent(distinct(baseline), present).contains(x) <==> (baseline.contains(x)
                && !present.contains(x)),
{
    lemma_distinct(baseline);
    lemma_absent(distinct(baseline), present);
}

proof fn lemma_select_all(fs: Seq<Finding>, known: Set<Seq<char>>)
    requires
        forall|i: int| 0 <= i < fs.len() ==> known.contains(#[trigger] fs[i].fingerprint@),
    ensures
        select(fs, known, true) == fs,
        select(fs, known, false) == Seq::<Finding>::empty(),
    decreases fs.len(),
{
    if fs.len() > 0 {
        let init = fs.drop_last();
        assert forall|i: int| 0 <= i < init.len() implies known.contains(#[trigger] init[i].fingerprint@) by {
            assert(init[i] == fs[i]);
        }
        lemma_select_all(init, known);
        assert(known.contains(fs[fs.len() - 1].fingerprint@));
        assert(init.push(fs.last()) =~= fs);
    }
}

proof fn lemma_absent_all(s: Seq<Seq<char>>, present: Seq<Seq<char>>)
    requires
        forall|x: Seq<char>| s.contains(x) ==> present.contains(x),
    ensures
        absent(s, present) == Seq::<Seq<char>>::empty(),
    decreases s.len(),
{
    if s.len() > 0 {
        let init = s.drop_last();
        assert forall|x: Seq<char>| init.contains(x) implies present.contains(x) by {
            let j = choose|j: int| 0 <= j < init.len() && init[j] == x;
            assert(s[j] == x);
        }
        lemma_absent_all(init, present);
        assert(s.contains(s[s.len() - 1]));
    }
}

/// Checking a scan against a baseline made from that same scan reports every
/// finding as existing, none as new and no fingerprint as fixed.
pub proof fn lemma_own_baseline_is_clean(fs: Seq<Finding>)
    ensures
        select(fs, fingerprints_of(fs).to_set(), true) == fs,
        select(fs, fingerprints_of(fs).to_set(), false) == Seq::<Finding>::empty(),
        absent(distinct(fingerprints_of(fs)), fingerprints_of(fs)) == Seq::<Seq<char>>::empty(),
{
    let fps = fingerprints_of(fs);
    assert forall|i: int| 0 <= i < fs.len() implies fps.to_set().contains(#[trigger] fs[i].fingerprint@) by {
        assert(fps[i] == fs[i].fingerprint@);
        assert(fps.contains(fps[i]));
    }
    lemma_select_all(fs, fps.to_set());
    lemma_distinct(fps);
    lemma_absent_all(distinct(fps), fps);
}

impl BaselineError {
    /// The error message.
    pub fn to_string(&self) -> (r: String)
        ensures
            r@ == (match self {
                BaselineError::Read { path, source } => "unable to read baseline '"@ + path@ + "': "@ + source@,
                BaselineError::Parse { path, source } => "unable to parse baseline '"@ + path@ + "': "@ + source@,
                BaselineError::Write { path, source } => "unable to write baseline '"@ + path@ + "': "@ + source@,
            }),
    {
        let (head, path, source) = match self {
            BaselineError::Read { path, source } => ("unable to read baseline '", path, source),
            BaselineError::Parse { path, source } => ("unable to parse baseline '", path, source),
            BaselineError::Write { path, source } => ("unable to write baseline '", path, source),
        };
        let mut s = head.to_owned();
        push_str(&mut s, path.as_str());
        push_str(&mut s, "': ");
        push_str(&mut s, source.as_str());
        s
    }
}

} // verus!
