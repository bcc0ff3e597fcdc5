//! Git-aware scanning: `--changed` and `--staged` scan exactly the files git
//! reports. Running git is the caller's business; the arguments and the
//! reading of its NUL-delimited output are here.

use vstd::prelude::*;
use vstd::string::*;

verus! {

#[derive(Debug, PartialEq, Eq)]
pub enum GitError {
    Unavailable(String),
    NonZero(String),
}

/// Scope of a git-aware scan.
#[derive(Debug, Clone, Copy, PartialEq, Eq, Structural)]
pub enum GitScope {
    /// Working-tree changes against the index (unstaged).
    Changed,
    /// Changes already staged for commit.
    Staged,
}

/// The arguments of the `git diff` call that lists the scope's files.
pub fn diff_arguments(scope: GitScope) -> (r: Vec<&'static str>)
    ensures
        scope == GitScope::Changed ==> r@.len() == 3 && r@[0]@ == "diff"@ && r@[1]@ == "--name-only"@
            && r@[2]@ == "-z"@,
        scope == GitScope::Staged ==> r@.len() == 4 && r@[0]@ == "diff"@ && r@[1]@ == "--cached"@
            && r@[2]@ == "--name-only"@ && r@[3]@ == "-z"@,
{
    let mut args: Vec<&'static str> = Vec::new();
    args.push("diff");
    if scope == GitScope::Staged {
        args.push("--cached");
    }
    args.push("--name-only");
    args.push("-z");
    args
}

/// The non-empty NUL-delimited names of `out`, from position `i`.
pub open spec fn names_from(out: Seq<u8>, i: int) -> Seq<Seq<u8>>
    decreases out.len() - i,
{
    if i < 0 || i >= out.len() {
        Seq::empty()
    } else {
        let end = nul_from(out, i);
        proof {
            lemma_nul_from_bounds(out, i);
        }
        let rest = if end < out.len() { names_from(out, end + 1) } else { Seq::empty() };
        if end > i {
            seq![out.subrange(i, end)] + rest
        } else {
            rest
        }
    }
}

/// The first NUL at or after `i`, or the length.
pub open spec fn nul_from(out: Seq<u8>, i: int) -> int
    decreases out.len() - i,
{
    if i < 0 || i >= out.len() {
        out.len() as int
    } else if out[i] == 0u8 {
        i
    } else {
        nul_from(out, i + 1)
    }
}

pub proof fn lemma_nul_from_bounds(out: Seq<u8>, i: int)
    requires
        0 <= i <= out.len(),
    ensures
        i <= nul_from(out, i) <= out.len(),
    decreases out.len() - i,
{
    if i < out.len() && out[i] != 0u8 {
        lemma_nul_from_bounds(out, i + 1);
    }
}

/// The file names in the output of `git diff --name-only -z`.
pub fn changed_names(out: &[u8]) -> (r: Vec<Vec<u8>>)
    ensures
        r@.map_values(|v: Vec<u8>| v@) == names_from(out@, 0),
{
    let n = out.len();
    let mut names: Vec<Vec<u8>> = Vec::new();
    let mut i: usize = 0;
    proof {
        assert(names@.map_values(|v: Vec<u8>| v@) =~= Seq::<Seq<u8>>::empty());
    }
    while i < n
        invariant
            i <= n == out@.len(),
            names@.map_values(|v: Vec<u8>| v@) + names_from(out@, i as int) == names_from(out@, 0),
        decreases n - i,
    {
        let mut end = i;
        while end < n && out[end] != 0
            invariant
                i <= end <= n == out@.len(),
                nul_from(out@, end as int) == nul_from(out@, i as int),
            decreases n - end,
        {
            end = end + 1;
        }
        let ghost before = names@.map_values(|v: Vec<u8>| v@);
        let ghost rest = if end < n { names_from(out@, end + 1) } else { Seq::<Seq<u8>>::empty() };
        if end > i {
            let name = vstd::slice::slice_to_vec(vstd::slice::slice_subrange(out, i, end));
            names.push(name);
            assert(names@.map_values(|v: Vec<u8>| v@) =~= before.push(out@.subrange(i as int, end as int)));
            assert(names@.map_values(|v: Vec<u8>| v@) + rest =~= before + (seq![out@.subrange(i as int, end as int)] + rest));
        } else {
            assert(before + rest =~= before + rest);
        }
        if end == n {
            assert(names_from(out@, n as int) =~= Seq::<Seq<u8>>::empty());
            assert(names@.map_values(|v: Vec<u8>| v@) + rest =~= names@.map_values(|v: Vec<u8>| v@));
            i = n;
        } else {
            i = end + 1;
        }
    }
    proof {
        assert(names@.map_values(|v: Vec<u8>| v@) + Seq::<Seq<u8>>::empty() =~= names@.map_values(|v: Vec<u8>| v@));
    }
    names
}

impl GitError {
    /// The error message.
    pub fn to_string(&self) -> (r: String)
        ensures
            r@ == (match self {
                GitError::Unavailable(m) => "git unavailable: "@ + m@,
                GitError::NonZero(m) => "git failed: "@ + m@,
            }),
    {
        let (head, m) = match self {
            GitError::Unavailable(m) => ("git unavailable: ", m),
            GitError::NonZero(m) => ("git failed: ", m),
        };
        let mut s = head.to_owned();
        crate::text::push_str(&mut s, m.as_str());
        s
    }
}

} // verus!
