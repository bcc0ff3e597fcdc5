//! File discovery: which entries of a scanned tree are files to analyze.
//! Walking directories is the caller's business; the decisions are here.

use vstd::prelude::*;
use vstd::string::*;
use crate::paths::{components, file_name_range, path_components, spec_file_name};
use crate::var_set::names_of;
use crate::text::{sbytes, slices_equal};
use crate::scope::ScanTarget;
use vstd::utf8::encode_utf8;
use crate::order::{bytes_less, bytes_lt, lemma_bytes_lt_asymmetric, lemma_bytes_lt_total, lemma_bytes_lt_transitive};

verus! {

#[derive(Debug, PartialEq, Eq)]
pub enum DiscoveryError {
    ReadDirectory { path: String, source: String },
    ReadMetadata { path: String, source: String },
}

/// A regular file found by discovery.
#[derive(Debug, PartialEq, Eq)]
pub struct FileEntry {
    path: String,
}

impl FileEntry {
    pub closed spec fn path_view(&self) -> Seq<char> {
        self.path@
    }

    pub fn new(path: String) -> (r: FileEntry)
        ensures
            r.path_view() == path@,
    {
        FileEntry { path }
    }

    pub fn path(&self) -> (r: &str)
        ensures
            r@ == self.path_view(),
    {
        self.path.as_str()
    }
}

/// Generated or dependency directories that are never descended into.
pub open spec fn is_ignored_name(name: Seq<u8>) -> bool {
    name == sbytes(".git") || name == sbytes("node_modules") || name == sbytes("target") || name
        == sbytes("build") || name == sbytes("dist")
}

/// Whether a directory is skipped by default: its file name is one of
/// `.git`, `node_modules`, `target`, `build`, `dist`.
pub fn is_ignored_directory(path: &str) -> (r: bool)
    ensures
        r == (spec_file_name(sbytes(path)) matches Some(name) && is_ignored_name(name)),
{
    let bytes = path.as_bytes();
    match file_name_range(bytes) {
        None => false,
        Some((s, e)) => {
            let name = vstd::slice::slice_subrange(bytes, s, e);
            slices_equal(name, ".git".as_bytes()) || slices_equal(name, "node_modules".as_bytes())
                || slices_equal(name, "target".as_bytes()) || slices_equal(name, "build".as_bytes())
                || slices_equal(name, "dist".as_bytes())
        },
    }
}

/// The error for a directory that could not be listed.
pub fn directory_error(path: &str, source: &str) -> (r: DiscoveryError)
    ensures
        r matches DiscoveryError::ReadDirectory { path: p, source: s } && p@ == path@ && s@ == source@,
{
    DiscoveryError::ReadDirectory { path: path.to_owned(), source: source.to_owned() }
}

/// What a directory entry is, symbolic links not followed.
#[derive(Debug, Clone, Copy, PartialEq, Eq, Structural)]
pub enum EntryKind {
    File,
    Directory,
    Symlink,
    Other,
}

/// One entry of a directory listing: its file name (as bytes), its path,
/// and its kind.
#[derive(Debug)]
pub struct ListedEntry {
    pub name: Vec<u8>,
    pub path: String,
    pub kind: EntryKind,
}

/// A listing entry as plain values.
pub struct EntryView {
    pub name: Seq<u8>,
    pub path: Seq<char>,
    pub kind: EntryKind,
}

pub open spec fn entry_view(e: ListedEntry) -> EntryView {
    EntryView { name: e.name@, path: e.path@, kind: e.kind }
}

pub open spec fn entries_view(es: Seq<ListedEntry>) -> Seq<EntryView> {
    es.map_values(|e: ListedEntry| entry_view(e))
}

/// Work left for discovery.
#[derive(Debug)]
pub enum Pending {
    /// A file target whose type is still to be checked.
    CheckFile(String),
    /// A directory still to be listed.
    ListDirectory(String),
    /// A regular file found in a listing.
    Found(String),
}

/// Pending work as plain values.
pub enum Work {
    Check(Seq<char>),
    List(Seq<char>),
    Found(Seq<char>),
}

pub open spec fn work_of(p: Pending) -> Work {
    match p {
        Pending::CheckFile(s) => Work::Check(s@),
        Pending::ListDirectory(s) => Work::List(s@),
        Pending::Found(s) => Work::Found(s@),
    }
}

pub open spec fn works_of(ps: Seq<Pending>) -> Seq<Work> {
    ps.map_values(|p: Pending| work_of(p))
}

/// What discovery needs next from the file system.
#[derive(Debug, PartialEq, Eq)]
pub enum DiscoveryStep {
    /// Whether this path is a regular file (symbolic links not followed).
    Metadata(String),
    /// The entries of this directory.
    Listing(String),
    /// Discovery is complete.
    Done,
}

/// The work a target stands for.
pub open spec fn target_work(t: ScanTarget) -> Work {
    match t {
        ScanTarget::File(p) => Work::Check(p@),
        ScanTarget::Directory(p) => Work::List(p@),
    }
}

/// The work a listing entry stands for: a regular file is found, a
/// directory that is not ignored is listed in turn, anything else (a
/// symbolic link, a special file, an ignored directory) is passed over.
pub open spec fn entry_work(e: EntryView) -> Option<Work> {
    match e.kind {
        EntryKind::File => Some(Work::Found(e.path)),
        EntryKind::Directory => if spec_file_name(encode_utf8(e.path)) matches Some(name) && is_ignored_name(name) {
            None
        } else {
            Some(Work::List(e.path))
        },
        _ => None,
    }
}

/// The work of a sorted listing, in listing order.
pub open spec fn listing_work(es: Seq<EntryView>) -> Seq<Work>
    decreases es.len(),
{
    if es.len() == 0 {
        Seq::empty()
    } else {
        let head: Seq<Work> = match entry_work(es[0]) {
            Some(w) => seq![w],
            None => Seq::empty(),
        };
        head + listing_work(es.drop_first())
    }
}

/// Entries in order of their names.
pub open spec fn sorted_by_name(es: Seq<EntryView>) -> bool {
    forall|i: int, j: int| 0 <= i < j < es.len() ==> !bytes_lt(#[trigger] es[j].name, #[trigger] es[i].name)
}

/// Found files are moved to the result while they are next.
pub open spec fn drain(files: Seq<Seq<char>>, pending: Seq<Work>) -> (Seq<Seq<char>>, Seq<Work>)
    decreases pending.len(),
{
    if pending.len() > 0 && pending.last() is Found {
        drain(files.push(pending.last()->Found_0), pending.drop_last())
    } else {
        (files, pending)
    }
}

/// File discovery over scan targets, driven by its caller: the caller asks
/// for the next step, performs it on the file system and hands back the
/// answer. Targets are taken in order; a directory's entries are taken in
/// order of their names, depth first; symbolic links are not followed and
/// ignored directories are not entered.
pub struct Discovery {
    files: Vec<FileEntry>,
    /// Work left, the next item last.
    pending: Vec<Pending>,
    awaiting: Option<Pending>,
}

impl Discovery {
    /// The paths found so far, in order.
    pub closed spec fn found(&self) -> Seq<Seq<char>> {
        self.files@.map_values(|f: FileEntry| f.path_view())
    }

    /// The work left, the next item last.
    pub closed spec fn work(&self) -> Seq<Work> {
        works_of(self.pending@)
    }

    /// The step whose answer is awaited.
    pub closed spec fn awaiting(&self) -> Option<Work> {
        match self.awaiting {
            Some(p) => Some(work_of(p)),
            None => None,
        }
    }

    /// Moves the found files that are next to the result and asks for the
    /// next step: the type of a file target, the listing of a directory,
    /// or nothing when the work is done.
    pub fn next_step(&mut self) -> (r: DiscoveryStep)
        requires
            old(self).awaiting() is None,
        ensures
            ({
                let (f, p) = drain(old(self).found(), old(self).work());
                &&& final(self).found() == f
                &&& if p.len() == 0 {
                    r == DiscoveryStep::Done && final(self).work().len() == 0 && final(self).awaiting() is None
                } else {
                    &&& final(self).work() == p.drop_last()
                    &&& final(self).awaiting() == Some(p.last())
                    &&& match p.last() {
                        Work::Check(path) => r matches DiscoveryStep::Metadata(q) && q@ == path,
                        Work::List(path) => r matches DiscoveryStep::Listing(q) && q@ == path,
                        Work::Found(_) => false,
                    }
                }
            }),
    {
        loop
            invariant
                self.awaiting() is None,
                drain(self.found(), self.work()) == drain(old(self).found(), old(self).work()),
            decreases self.pending@.len(),
        {
            let ghost f0 = self.found();
            let ghost w0 = self.work();
            let ghost p0 = self.pending@;
            let popped = self.pending.pop();
            proof {
                if p0.len() > 0 {
                    assert(self.pending@ =~= p0.drop_last());
                    assert(self.work() =~= w0.drop_last());
                    assert(w0.last() == work_of(p0.last()));
                }
            }
            match popped {
                None => {
                    return DiscoveryStep::Done;
                },
                Some(Pending::Found(path)) => {
                    let ghost name = path@;
                    self.files.push(FileEntry::new(path));
                    proof {
                        assert(self.found() =~= f0.push(name));
                        assert(w0.last()->Found_0 == name);
                    }
                },
                Some(Pending::CheckFile(path)) => {
                    let step = DiscoveryStep::Metadata(path.clone());
                    self.awaiting = Some(Pending::CheckFile(path));
                    return step;
                },
                Some(Pending::ListDirectory(path)) => {
                    let step = DiscoveryStep::Listing(path.clone());
                    self.awaiting = Some(Pending::ListDirectory(path));
                    return step;
                },
            }
        }
    }

    /// The answer to a `Metadata` step: the file target is kept when it is
    /// a regular file.
    pub fn on_metadata(&mut self, is_regular_file: bool)
        requires
            old(self).awaiting() matches Some(Work::Check(_)),
        ensures
            final(self).awaiting() is None,
            final(self).work() == old(self).work(),
            final(self).found() == (if is_regular_file {
                old(self).found().push(old(self).awaiting()->Some_0->Check_0)
            } else {
                old(self).found()
            }),
    {
        let ghost before = self.found();
        let waiting = self.awaiting.take();
        match waiting {
            Some(Pending::CheckFile(path)) => {
                if is_regular_file {
                    self.files.push(FileEntry::new(path));
                    assert(self.found() =~= before.push(self.files@.last().path_view()));
                }
            },
            _ => {},
        }
    }

    /// The answer to a `Listing` step: the directory's entries, in any
    /// order. They are taken in order of their names; regular files are
    /// found, directories other than the ignored ones are listed in turn.
    pub fn on_listing(&mut self, entries: Vec<ListedEntry>)
        requires
            old(self).awaiting() matches Some(Work::List(_)),
        ensures
            final(self).awaiting() is None,
            final(self).found() == old(self).found(),
            exists|sorted: Seq<EntryView>|
                #![trigger listing_work(sorted)]
                sorted.to_multiset() == entries_view(entries@).to_multiset() && sorted_by_name(sorted)
                    && final(self).work() == old(self).work() + listing_work(sorted).reverse(),
    {
        self.awaiting = None;
        let sorted = sort_by_name(entries);
        let ghost sv = entries_view(sorted@);
        let n = sorted.len();
        let mut k = n;
        let ghost base = self.work();
        proof {
            assert(sv.subrange(n as int, n as int) =~= Seq::<EntryView>::empty());
            assert(base + listing_work(sv.subrange(n as int, n as int)).reverse() =~= base);
        }
        while k > 0
            invariant
                k <= n == sorted@.len(),
                sv == entries_view(sorted@),
                self.awaiting() is None,
                self.found() == old(self).found(),
                self.work() == base + listing_work(sv.subrange(k as int, n as int)).reverse(),
            decreases k,
        {
            let e = &sorted[k - 1];
            let ghost before = self.work();
            let ghost ev = entry_view(sorted@[k - 1]);
            proof {
                let suf = sv.subrange(k - 1, n as int);
                assert(suf.drop_first() =~= sv.subrange(k as int, n as int));
                assert(suf[0] == ev);
            }
            match e.kind {
                EntryKind::File => {
                    self.pending.push(Pending::Found(e.path.clone()));
                },
                EntryKind::Directory => {
                    if !is_ignored_directory(e.path.as_str()) {
                        self.pending.push(Pending::ListDirectory(e.path.clone()));
                    }
                },
                _ => {},
            }
            proof {
                let rest = listing_work(sv.subrange(k as int, n as int));
                let head = match entry_work(ev) {
                    Some(w) => seq![w],
                    None => Seq::<Work>::empty(),
                };
                assert((head + rest).reverse() =~= rest.reverse() + head.reverse());
                assert(self.work() =~= before + head.reverse());
            }
            k = k - 1;
        }
        proof {
            assert(sv.subrange(0, n as int) =~= sv);
        }
    }

    /// The files found, in discovery order.
    pub fn finish(self) -> (r: Vec<FileEntry>)
        ensures
            r@.map_values(|f: FileEntry| f.path_view()) == self.found(),
    {
        self.files
    }
}

/// Starts discovering the regular files of the targets, in order: a file
/// target is kept when it is a regular file, a directory target is walked.
pub fn discover(targets: &[ScanTarget]) -> (r: Discovery)
    ensures
        r.found().len() == 0,
        r.awaiting() is None,
        r.work() == targets@.map_values(|t: ScanTarget| target_work(t)).reverse(),
{
    let mut pending: Vec<Pending> = Vec::new();
    let mut k = targets.len();
    while k > 0
        invariant
            k <= targets@.len(),
            works_of(pending@) == targets@.map_values(|t: ScanTarget| target_work(t)).subrange(
                k as int,
                targets@.len() as int,
            ).reverse(),
        decreases k,
    {
        let ghost prev = works_of(pending@);
        let item = match &targets[k - 1] {
            ScanTarget::File(p) => Pending::CheckFile(p.clone()),
            ScanTarget::Directory(p) => Pending::ListDirectory(p.clone()),
        };
        pending.push(item);
        k = k - 1;
        proof {
            let tw = targets@.map_values(|t: ScanTarget| target_work(t));
            assert(works_of(pending@) =~= prev.push(tw[k as int]));
            assert(tw.subrange(k as int, targets@.len() as int).reverse() =~= tw.subrange(
                k + 1,
                targets@.len() as int,
            ).reverse().push(tw[k as int]));
        }
    }
    let r = Discovery { files: Vec::new(), pending, awaiting: None };
    assert(r.found() =~= Seq::<Seq<char>>::empty());
    assert(targets@.map_values(|t: ScanTarget| target_work(t)).subrange(0, targets@.len() as int)
        =~= targets@.map_values(|t: ScanTarget| target_work(t)));
    r
}

/// Sorts listing entries by name (stable insertion sort).
fn sort_by_name(entries: Vec<ListedEntry>) -> (r: Vec<ListedEntry>)
    ensures
        entries_view(r@).to_multiset() == entries_view(entries@).to_multiset(),
        sorted_by_name(entries_view(r@)),
{
    broadcast use vstd::seq_lib::group_to_multiset_ensures;

    let ghost all = entries_view(entries@);
    let mut out: Vec<ListedEntry> = Vec::new();
    let mut rest = entries;
    proof {
        assert(entries_view(out@) =~= Seq::<EntryView>::empty());
        assert(entries_view(rest@) =~= all);
    }
    while rest.len() > 0
        invariant
            all == entries_view(entries@),
            entries_view(out@).to_multiset().add(entries_view(rest@).to_multiset()) == all.to_multiset(),
            sorted_by_name(entries_view(out@)),
        decreases rest@.len(),
    {
        let ghost rv = entries_view(rest@);
        let ghost ov = entries_view(out@);
        let e = rest.remove(0);
        proof {
            assert(entries_view(rest@) =~= rv.remove(0));
            assert(rv[0] == entry_view(e));
        }
        let mut pos: usize = 0;
        while pos < out.len() && !bytes_less(e.name.as_slice(), out[pos].name.as_slice())
            invariant
                pos <= out@.len(),
                ov == entries_view(out@),
                forall|k: int| 0 <= k < pos ==> !bytes_lt(e.name@, #[trigger] ov[k].name),
            decreases out@.len() - pos,
        {
            assert(ov[pos as int].name == out@[pos as int].name@);
            pos = pos + 1;
        }
        proof {
            if pos < out@.len() {
                assert(ov[pos as int].name == out@[pos as int].name@);
                assert forall|k: int| pos <= k < ov.len() implies bytes_lt(e.name@, #[trigger] ov[k].name) by {
                    if k > pos {
                        assert(!bytes_lt(ov[k].name, ov[pos as int].name));
                        lemma_bytes_lt_total(ov[k].name, ov[pos as int].name);
                        if ov[k].name != ov[pos as int].name {
                            lemma_bytes_lt_transitive(e.name@, ov[pos as int].name, ov[k].name);
                        }
                    }
                }
            }
        }
        let ghost ev = entry_view(e);
        out.insert(pos, e);
        proof {
            assert(entries_view(out@) =~= ov.insert(pos as int, ev));
            let nv = entries_view(out@);
            assert forall|i: int, j: int| 0 <= i < j < nv.len() implies !bytes_lt(#[trigger] nv[j].name, #[trigger] nv[i].name) by {
                if j == pos {
                    assert(nv[i] == ov[i]);
                } else if i == pos {
                    assert(nv[j] == ov[j - 1]);
                    lemma_bytes_lt_asymmetric(ev.name, ov[j - 1].name);
                } else {
                    let oi = if i < pos { i } else { i - 1 };
                    let oj = if j < pos { j } else { j - 1 };
                    assert(nv[i] == ov[oi] && nv[j] == ov[oj]);
                }
            }
            vstd::seq_lib::to_multiset_remove(rv, 0);
            vstd::seq_lib::to_multiset_insert(ov, pos as int, ev);
            vstd::seq_lib::to_multiset_contains(rv, ev);
            assert(rv.contains(ev)) by {
                assert(rv[0] == ev);
            }
            broadcast use vstd::multiset::group_multiset_axioms;
            assert(entries_view(out@).to_multiset().add(entries_view(rest@).to_multiset()) =~= ov.to_multiset().add(
                rv.to_multiset(),
            ));
        }
    }
    out
}

impl DiscoveryError {
    /// The error message.
    pub fn to_string(&self) -> (r: String)
        ensures
            r@ == (match self {
                DiscoveryError::ReadDirectory { path, source } => "unable to read directory '"@ + path@ + "': "@
                    + source@,
                DiscoveryError::ReadMetadata { path, source } => "unable to read metadata for '"@ + path@ + "': "@
                    + source@,
            }),
    {
        let (head, path, source) = match self {
            DiscoveryError::ReadDirectory { path, source } => ("unable to read directory '", path, source),
            DiscoveryError::ReadMetadata { path, source } => ("unable to read metadata for '", path, source),
        };
        let mut s = head.to_owned();
        crate::text::push_str(&mut s, path.as_str());
        crate::text::push_str(&mut s, "': ");
        crate::text::push_str(&mut s, source.as_str());
        s
    }
}

/// `path` lies under `dir` (or is `dir`): `dir`'s components begin `path`'s.
pub open spec fn lies_under(path: Seq<char>, dir: Seq<char>) -> bool {
    let d = path_components(dir);
    let p = path_components(path);
    d.len() <= p.len() && p.subrange(0, d.len() as int) == d
}

/// `path` lies under one of `excludes`.
pub open spec fn excluded_by(path: Seq<char>, excludes: Seq<String>) -> bool {
    exists|i: int| 0 <= i < excludes.len() && lies_under(path, (#[trigger] excludes[i])@)
}

fn starts_with_components(p: &Vec<String>, d: &Vec<String>) -> (r: bool)
    ensures
        r == (d@.len() <= p@.len() && names_of(p@).subrange(0, d@.len() as int) == names_of(d@)),
{
    if d.len() > p.len() {
        return false;
    }
    let mut k: usize = 0;
    while k < d.len()
        invariant
            d@.len() <= p@.len(),
            k <= d@.len(),
            forall|j: int| 0 <= j < k ==> p@[j]@ == d@[j]@,
        decreases d@.len() - k,
    {
        if p[k] != d[k] {
            assert(names_of(p@).subrange(0, d@.len() as int)[k as int] == p@[k as int]@);
            assert(names_of(d@)[k as int] == d@[k as int]@);
            return false;
        }
        k = k + 1;
    }
    assert(names_of(p@).subrange(0, d@.len() as int) =~= names_of(d@));
    true
}

/// Whether `path` lies under one of the excluded paths (compared component
/// by component).
pub fn is_excluded(path: &str, excludes: &[String]) -> (r: bool)
    ensures
        r == excluded_by(path@, excludes@),
{
    let p = components(path);
    let mut i: usize = 0;
    while i < excludes.len()
        invariant
            i <= excludes@.len(),
            names_of(p@) == path_components(path@),
            forall|k: int| 0 <= k < i ==> !lies_under(path@, (#[trigger] excludes@[k])@),
        decreases excludes@.len() - i,
    {
        let d = components(excludes[i].as_str());
        if starts_with_components(&p, &d) {
            return true;
        }
        i = i + 1;
    }
    false
}

/// The discovered files that lie under none of the excluded paths, in order.
pub fn without_excluded(files: Vec<FileEntry>, excludes: &[String]) -> (r: Vec<FileEntry>)
    ensures
        r@.map_values(|f: FileEntry| f.path_view()) == files@.map_values(|f: FileEntry| f.path_view()).filter(
            |p: Seq<char>| !excluded_by(p, excludes@),
        ),
{
    let ghost all = files@.map_values(|f: FileEntry| f.path_view());
    let mut out: Vec<FileEntry> = Vec::new();
    let mut rest = files;
    let ghost mut i: int = 0;
    proof {
        assert(all.subrange(0, 0) =~= Seq::<Seq<char>>::empty());
        assert(out@.map_values(|f: FileEntry| f.path_view()) =~= Seq::<Seq<char>>::empty());
        assert(rest@.map_values(|f: FileEntry| f.path_view()) =~= all.subrange(0, all.len() as int));
        reveal(Seq::filter);
    }
    while rest.len() > 0
        invariant
            0 <= i <= all.len(),
            i + rest@.len() == all.len(),
            rest@.map_values(|f: FileEntry| f.path_view()) == all.subrange(i, all.len() as int),
            out@.map_values(|f: FileEntry| f.path_view()) == all.subrange(0, i).filter(
                |p: Seq<char>| !excluded_by(p, excludes@),
            ),
        decreases rest@.len(),
    {
        let ghost rv = rest@.map_values(|f: FileEntry| f.path_view());
        let ghost r0 = rest@;
        let ghost prev = out@.map_values(|f: FileEntry| f.path_view());
        let f = rest.remove(0);
        proof {
            assert(rest@ =~= r0.drop_first());
            assert(rest@.map_values(|f: FileEntry| f.path_view()) =~= rv.drop_first());
            assert(rv[0] == f.path_view());
            assert(rv[0] == all[i]);
            assert(rest@.map_values(|f: FileEntry| f.path_view()) =~= all.subrange(i + 1, all.len() as int));
            let sub = all.subrange(0, i + 1);
            assert(sub.drop_last() =~= all.subrange(0, i));
            assert(sub.last() == all[i]);
            reveal(Seq::filter);
        }
        if !is_excluded(f.path(), excludes) {
            out.push(f);
            proof {
                assert(out@.map_values(|f: FileEntry| f.path_view()) =~= prev.push(all[i]));
            }
        }
        proof {
            i = i + 1;
        }
    }
    assert(all.subrange(0, all.len() as int) =~= all);
    out
}

} // verus!
