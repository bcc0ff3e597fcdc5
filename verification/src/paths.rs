//! Slash-separated paths held as plain strings.
//!
//! The library keeps file paths as `String`s; these helpers give them the
//! usual component semantics (file name, extension, parent, join).

use vstd::prelude::*;
use vstd::string::*;
use crate::text::{chars_of, push_char, push_str};


verus! {

/// Length of `p` once trailing `/` separators are removed.
pub open spec fn trimmed_len(p: Seq<u8>) -> int
    decreases p.len(),
{
    if p.len() > 0 && p.last() == 0x2Fu8 {
        trimmed_len(p.drop_last())
    } else {
        p.len() as int
    }
}

/// Start of the last component of `p[..end]` (one past the last `/`, or 0).
pub open spec fn component_start(p: Seq<u8>, end: int) -> int
    decreases end,
{
    if end <= 0 {
        0
    } else if p[end - 1] == 0x2Fu8 {
        end
    } else {
        component_start(p, end - 1)
    }
}

/// The file name of a path: its last component, unless that is `.`/`..` or empty.
pub open spec fn spec_file_name(p: Seq<u8>) -> Option<Seq<u8>> {
    let end = trimmed_len(p);
    let start = component_start(p, end);
    let name = p.subrange(start, end);
    if name.len() == 0 || name == seq![0x2Eu8] || name == seq![0x2Eu8, 0x2Eu8] {
        None
    } else {
        Some(name)
    }
}

/// The extension of a file name: the part after its last `.`, when the name
/// does not start with that `.`.
pub open spec fn spec_extension_of_name(name: Seq<u8>) -> Option<Seq<u8>> {
    match last_dot(name, name.len() as int) {
        Some(i) => if i == 0 { None } else { Some(name.subrange(i + 1, name.len() as int)) },
        None => None,
    }
}

/// The last `.` strictly before `end`.
pub open spec fn last_dot(name: Seq<u8>, end: int) -> Option<int>
    decreases end,
{
    if end <= 0 {
        None
    } else if name[end - 1] == 0x2Eu8 {
        Some(end - 1)
    } else {
        last_dot(name, end - 1)
    }
}

pub open spec fn spec_extension(p: Seq<u8>) -> Option<Seq<u8>> {
    match spec_file_name(p) {
        Some(name) => spec_extension_of_name(name),
        None => None,
    }
}

proof fn lemma_trimmed_len_bounds(p: Seq<u8>)
    ensures
        0 <= trimmed_len(p) <= p.len(),
        trimmed_len(p) > 0 ==> p[trimmed_len(p) - 1] != 0x2Fu8,
        forall|i: int| trimmed_len(p) <= i < p.len() ==> p[i] == 0x2Fu8,
        trimmed_len(p.subrange(0, trimmed_len(p))) == trimmed_len(p),
    decreases p.len(),
{
    if p.len() > 0 && p.last() == 0x2Fu8 {
        lemma_trimmed_len_bounds(p.drop_last());
        assert(p.drop_last().subrange(0, trimmed_len(p)) =~= p.subrange(0, trimmed_len(p)));
        assert forall|i: int| trimmed_len(p) <= i < p.len() implies p[i] == 0x2Fu8 by {
            if i < p.len() - 1 {
                assert(p.drop_last()[i] == p[i]);
            }
        }
    } else {
        assert(p.subrange(0, p.len() as int) =~= p);
    }
}

proof fn lemma_component_start_bounds(p: Seq<u8>, end: int)
    requires
        0 <= end <= p.len(),
    ensures
        0 <= component_start(p, end) <= end,
        component_start(p, end) > 0 ==> p[component_start(p, end) - 1] == 0x2Fu8,
        forall|i: int| component_start(p, end) <= i < end ==> p[i] != 0x2Fu8,
    decreases end,
{
    if end > 0 && p[end - 1] != 0x2Fu8 {
        lemma_component_start_bounds(p, end - 1);
    }
}

fn trimmed_len_exec(p: &[u8]) -> (r: usize)
    ensures
        r == trimmed_len(p@),
{
    let mut end = p.len();
    assert(p@.subrange(0, end as int) =~= p@);
    while end > 0 && p[end - 1] == 0x2F
        invariant
            end <= p@.len(),
            trimmed_len(p@) == trimmed_len(p@.subrange(0, end as int)),
        decreases end,
    {
        assert(p@.subrange(0, end as int).drop_last() =~= p@.subrange(0, end - 1));
        end = end - 1;
    }
    assert(p@.subrange(0, end as int).len() == end);
    end
}

fn component_start_exec(p: &[u8], end: usize) -> (r: usize)
    requires
        end <= p@.len(),
    ensures
        r == component_start(p@, end as int),
{
    let mut i = end;
    while i > 0 && p[i - 1] != 0x2F
        invariant
            i <= end <= p@.len(),
            component_start(p@, end as int) == component_start(p@, i as int),
        decreases i,
    {
        i = i - 1;
    }
    i
}

fn is_dot_or_dotdot(name: &[u8]) -> (r: bool)
    ensures
        r == (name@ == seq![0x2Eu8] || name@ == seq![0x2Eu8, 0x2Eu8]),
{
    if name.len() == 1 {
        let r = name[0] == 0x2E;
        assert(r ==> name@ =~= seq![0x2Eu8]);
        r
    } else if name.len() == 2 {
        let r = name[0] == 0x2E && name[1] == 0x2E;
        assert(r ==> name@ =~= seq![0x2Eu8, 0x2Eu8]);
        r
    } else {
        false
    }
}

/// Byte range of the file name inside `p`, when it has one.
pub fn file_name_range(p: &[u8]) -> (r: Option<(usize, usize)>)
    ensures
        match r {
            Some((s, e)) => s <= e <= p@.len() && spec_file_name(p@) == Some(p@.subrange(s as int, e as int)),
            None => spec_file_name(p@) is None,
        },
{
    let end = trimmed_len_exec(p);
    proof { lemma_trimmed_len_bounds(p@); }
    let start = component_start_exec(p, end);
    proof { lemma_component_start_bounds(p@, end as int); }
    let name = vstd::slice::slice_subrange(p, start, end);
    if name.len() == 0 || is_dot_or_dotdot(name) {
        None
    } else {
        Some((start, end))
    }
}

/// Byte range of the extension inside `p`, when it has one.
pub fn extension_range(p: &[u8]) -> (r: Option<(usize, usize)>)
    ensures
        match r {
            Some((s, e)) => s <= e <= p@.len() && spec_extension(p@) == Some(p@.subrange(s as int, e as int)),
            None => spec_extension(p@) is None,
        },
{
    match file_name_range(p) {
        None => None,
        Some((start, end)) => {
            let ghost name = p@.subrange(start as int, end as int);
            let mut i = end;
            while i > start && p[i - 1] != 0x2E
                invariant
                    start <= i <= end <= p@.len(),
                    name == p@.subrange(start as int, end as int),
                    last_dot(name, name.len() as int) == last_dot(name, i - start),
                decreases i,
            {
                i = i - 1;
            }
            if i == start {
                None
            } else if i - 1 == start {
                None
            } else {
                assert(name.subrange(i - start, name.len() as int) =~= p@.subrange(i as int, end as int));
                Some((i, end))
            }
        }
    }
}

/// `Path::join` on `/`-separated paths: an absolute `part` replaces `base`;
/// otherwise a separator is inserted unless `base` is empty or already ends
/// with one.
pub open spec fn spec_join(base: Seq<char>, part: Seq<char>) -> Seq<char> {
    if part.len() > 0 && part[0] == '/' {
        part
    } else if base.len() == 0 || base.last() == '/' {
        base + part
    } else {
        base + seq!['/'] + part
    }
}

/// Joins a path component onto a base path.
pub fn join_path(base: &str, part: &str) -> (r: String)
    ensures
        r@ == spec_join(base@, part@),
{
    let b = chars_of(base);
    let p = chars_of(part);
    if p.len() > 0 && p[0] == '/' {
        return part.to_owned();
    }
    let mut out = base.to_owned();
    if b.len() > 0 && b[b.len() - 1] != '/' {
        push_char(&mut out, '/');
    }
    push_str(&mut out, part);
    out
}

/// The `/`-separated pieces of a path, empty ones included.
pub open spec fn pieces(s: Seq<char>) -> Seq<Seq<char>>
    decreases s.len(),
{
    if s.len() == 0 {
        seq![Seq::empty()]
    } else if s.last() == '/' {
        pieces(s.drop_last()).push(Seq::empty())
    } else {
        let p = pieces(s.drop_last());
        p.update(p.len() - 1, p.last().push(s.last()))
    }
}

pub proof fn lemma_pieces_nonempty(s: Seq<char>)
    ensures
        pieces(s).len() >= 1,
    decreases s.len(),
{
    if s.len() > 0 {
        lemma_pieces_nonempty(s.drop_last());
    }
}

/// Whether piece `k` names a component: not empty, and not `.` unless it
/// leads a relative path.
pub open spec fn keeps_piece(piece: Seq<char>, k: int, absolute: bool) -> bool {
    piece.len() > 0 && (piece != seq!['.'] || (k == 0 && !absolute))
}

pub open spec fn kept_pieces(ps: Seq<Seq<char>>, absolute: bool, n: int) -> Seq<Seq<char>>
    decreases n,
{
    if n <= 0 {
        Seq::empty()
    } else if keeps_piece(ps[n - 1], n - 1, absolute) {
        kept_pieces(ps, absolute, n - 1).push(ps[n - 1])
    } else {
        kept_pieces(ps, absolute, n - 1)
    }
}

/// `Path::components`: the root (as `/`), then the named pieces; `.`
/// survives only at the start of a relative path.
pub open spec fn path_components(s: Seq<char>) -> Seq<Seq<char>> {
    let absolute = s.len() > 0 && s[0] == '/';
    let ps = pieces(s);
    (if absolute {
        seq![seq!['/']]
    } else {
        Seq::empty()
    }) + kept_pieces(ps, absolute, ps.len() as int)
}

/// Splits a path into its pieces.
fn split_pieces(p: &str) -> (r: Vec<String>)
    ensures
        crate::var_set::names_of(r@) == pieces(p@),
{
    let cs = chars_of(p);
    let mut done: Vec<String> = Vec::new();
    let mut current = String::new();
    let mut i: usize = 0;
    proof {
        assert(cs@.subrange(0, 0) =~= Seq::<char>::empty());
        assert(crate::var_set::names_of(done@).push(current@) =~= pieces(Seq::<char>::empty()));
    }
    while i < cs.len()
        invariant
            i <= cs@.len(),
            cs@ == p@,
            crate::var_set::names_of(done@).push(current@) == pieces(cs@.subrange(0, i as int)),
        decreases cs@.len() - i,
    {
        let ghost prev = crate::var_set::names_of(done@);
        proof {
            let sub = cs@.subrange(0, i + 1);
            assert(sub.drop_last() =~= cs@.subrange(0, i as int));
            assert(sub.last() == cs@[i as int]);
        }
        if cs[i] == '/' {
            let piece = current;
            done.push(piece);
            current = String::new();
            assert(crate::var_set::names_of(done@).push(current@) =~= prev.push(piece@).push(Seq::empty()));
        } else {
            let ghost before = current@;
            push_char(&mut current, cs[i]);
            assert(crate::var_set::names_of(done@).push(current@) =~= prev.push(before).update(
                prev.len() as int,
                before.push(cs@[i as int]),
            ));
        }
        i = i + 1;
    }
    assert(cs@.subrange(0, cs@.len() as int) =~= cs@);
    let ghost prev = crate::var_set::names_of(done@);
    done.push(current);
    assert(crate::var_set::names_of(done@) =~= prev.push(done@.last()@));
    done
}

/// The components of a path.
pub fn components(p: &str) -> (r: Vec<String>)
    ensures
        crate::var_set::names_of(r@) == path_components(p@),
{
    let cs = chars_of(p);
    let absolute = cs.len() > 0 && cs[0] == '/';
    let ps = split_pieces(p);
    let ghost pv = crate::var_set::names_of(ps@);
    let mut out: Vec<String> = Vec::new();
    if absolute {
        out.push("/".to_string());
        proof {
            reveal_strlit("/");
            assert("/"@ =~= seq!['/']);
        }
    }
    let ghost head = crate::var_set::names_of(out@);
    proof {
        assert(head =~= (if absolute { seq![seq!['/']] } else { Seq::<Seq<char>>::empty() }));
    }
    let mut k: usize = 0;
    proof {
        assert(head + kept_pieces(pv, absolute, 0) =~= head);
    }
    while k < ps.len()
        invariant
            k <= ps@.len(),
            pv == crate::var_set::names_of(ps@),
            crate::var_set::names_of(out@) == head + kept_pieces(pv, absolute, k as int),
        decreases ps@.len() - k,
    {
        let piece = chars_of(ps[k].as_str());
        let dot = piece.len() == 1 && piece[0] == '.';
        proof {
            assert(pv[k as int] == ps@[k as int]@);
            if dot {
                assert(piece@ =~= seq!['.']);
            }
            assert(dot == (pv[k as int] == seq!['.']));
        }
        if piece.len() > 0 && (!dot || (k == 0 && !absolute)) {
            let ghost prev = crate::var_set::names_of(out@);
            out.push(ps[k].clone());
            assert(crate::var_set::names_of(out@) =~= prev.push(pv[k as int]));
        }
        k = k + 1;
    }
    out
}

/// Whether two paths name the same components (`Path` equality).
pub fn same_path(a: &str, b: &str) -> (r: bool)
    ensures
        r == (path_components(a@) == path_components(b@)),
{
    let x = components(a);
    let y = components(b);
    if x.len() != y.len() {
        proof {
            assert(crate::var_set::names_of(x@).len() != crate::var_set::names_of(y@).len());
        }
        return false;
    }
    let mut k: usize = 0;
    while k < x.len()
        invariant
            k <= x@.len() == y@.len(),
            forall|j: int| 0 <= j < k ==> x@[j]@ == y@[j]@,
            crate::var_set::names_of(x@) == path_components(a@),
            crate::var_set::names_of(y@) == path_components(b@),
        decreases x@.len() - k,
    {
        if !crate::text::str_eq(x[k].as_str(), y[k].as_str()) {
            proof {
                assert(crate::var_set::names_of(x@)[k as int] != crate::var_set::names_of(y@)[k as int]);
            }
            return false;
        }
        k = k + 1;
    }
    assert(crate::var_set::names_of(x@) =~= crate::var_set::names_of(y@));
    true
}

/// `Path::file_stem`: the file name without its extension; a name whose
/// only `.` leads it is its own stem.
pub open spec fn spec_file_stem(p: Seq<u8>) -> Option<Seq<u8>> {
    match spec_file_name(p) {
        Some(name) => match last_dot(name, name.len() as int) {
            Some(i) => if i == 0 {
                Some(name)
            } else {
                Some(name.subrange(0, i))
            },
            None => Some(name),
        },
        None => None,
    }
}

/// Byte range of the file stem inside `p`, when it has a file name.
pub fn file_stem_range(p: &[u8]) -> (r: Option<(usize, usize)>)
    ensures
        match r {
            Some((s, e)) => s <= e <= p@.len() && spec_file_stem(p@) == Some(p@.subrange(s as int, e as int)),
            None => spec_file_stem(p@) is None,
        },
{
    match file_name_range(p) {
        None => None,
        Some((start, end)) => {
            let ghost name = p@.subrange(start as int, end as int);
            let mut i = end;
            while i > start && p[i - 1] != 0x2E
                invariant
                    start <= i <= end <= p@.len(),
                    name == p@.subrange(start as int, end as int),
                    last_dot(name, name.len() as int) == last_dot(name, i - start),
                decreases i,
            {
                i = i - 1;
            }
            if i == start || i - 1 == start {
                Some((start, end))
            } else {
                assert(name.subrange(0, i - 1 - start) =~= p@.subrange(start as int, i - 1));
                Some((start, i - 1))
            }
        },
    }
}

} // verus!
