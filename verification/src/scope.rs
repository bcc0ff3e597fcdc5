//! Scan scope: what the user asked to scan.

use vstd::prelude::*;
use vstd::string::*;

verus! {

/// A user-requested filesystem target of a scan.
#[derive(Debug, PartialEq, Eq)]
pub enum ScanTarget {
    File(String),
    Directory(String),
}

impl ScanTarget {
    pub fn path(&self) -> (r: &String)
        ensures
            *r == (match self {
                ScanTarget::File(p) => *p,
                ScanTarget::Directory(p) => *p,
            }),
    {
        match self {
            ScanTarget::File(path) => path,
            ScanTarget::Directory(path) => path,
        }
    }
}

/// Errors that can occur while resolving scan targets.
#[derive(Debug, PartialEq, Eq)]
pub enum ScopeError {
    PathNotFound(String),
    MetadataUnavailable { path: String },
}

/// What the filesystem reports about a path.
#[derive(Debug, Clone, Copy, PartialEq, Eq, Structural)]
pub enum PathKind {
    /// No metadata could be read (the path does not exist).
    Missing,
    Directory,
    File,
    /// Neither a directory nor a regular file.
    Other,
}

/// The requested paths; no path means the current directory.
pub fn requested_paths(paths: &[String]) -> (r: Vec<String>)
    ensures
        paths@.len() == 0 ==> r@.len() == 1 && r@[0]@ == "."@,
        paths@.len() > 0 ==> r@.len() == paths@.len() && forall|i: int|
            0 <= i < paths@.len() ==> #[trigger] r@[i]@ == paths@[i]@,
{
    let mut out: Vec<String> = Vec::new();
    if paths.len() == 0 {
        out.push(".".to_owned());
        return out;
    }
    let mut i: usize = 0;
    while i < paths.len()
        invariant
            i <= paths@.len(),
            out@.len() == i,
            forall|k: int| 0 <= k < i ==> #[trigger] out@[k]@ == paths@[k]@,
        decreases paths@.len() - i,
    {
        out.push(paths[i].clone());
        i = i + 1;
    }
    out
}

/// The target a path of kind `kind` stands for.
pub fn resolve_path(path: &str, kind: PathKind) -> (r: Result<ScanTarget, ScopeError>)
    ensures
        match kind {
            PathKind::Missing => r matches Err(ScopeError::PathNotFound(p)) && p@ == path@,
            PathKind::Directory => r matches Ok(ScanTarget::Directory(p)) && p@ == path@,
            PathKind::File => r matches Ok(ScanTarget::File(p)) && p@ == path@,
            PathKind::Other => r matches Err(ScopeError::MetadataUnavailable { path: p }) && p@ == path@,
        },
{
    match kind {
        PathKind::Missing => Err(ScopeError::PathNotFound(path.to_owned())),
        PathKind::Directory => Ok(ScanTarget::Directory(path.to_owned())),
        PathKind::File => Ok(ScanTarget::File(path.to_owned())),
        PathKind::Other => Err(ScopeError::MetadataUnavailable { path: path.to_owned() }),
    }
}

/// Resolves the requested paths, each with what the filesystem reports
/// about it, into typed targets; the first failing path stops the
/// resolution.
pub fn resolve(paths: &[String], kinds: &[PathKind]) -> (r: Result<Vec<ScanTarget>, ScopeError>)
    requires
        kinds@.len() == paths@.len(),
    ensures
        match r {
            Ok(ts) => ts@.len() == paths@.len() && forall|i: int|
                0 <= i < paths@.len() ==> (kinds@[i] == PathKind::Directory || kinds@[i] == PathKind::File)
                    && match #[trigger] ts@[i] {
                    ScanTarget::File(p) => kinds@[i] == PathKind::File && p@ == paths@[i]@,
                    ScanTarget::Directory(p) => kinds@[i] == PathKind::Directory && p@ == paths@[i]@,
                },
            Err(e) => exists|i: int|
                #![trigger paths@[i]]
                0 <= i < paths@.len() && (forall|k: int|
                    0 <= k < i ==> (#[trigger] kinds@[k] == PathKind::Directory || kinds@[k]
                        == PathKind::File)) && match e {
                    ScopeError::PathNotFound(p) => kinds@[i] == PathKind::Missing && p@ == paths@[i]@,
                    ScopeError::MetadataUnavailable { path: p } => kinds@[i] == PathKind::Other && p@
                        == paths@[i]@,
                },
        },
{
    let mut out: Vec<ScanTarget> = Vec::new();
    let mut i: usize = 0;
    while i < paths.len()
        invariant
            i <= paths@.len() == kinds@.len(),
            out@.len() == i,
            forall|k: int|
                0 <= k < i ==> (kinds@[k] == PathKind::Directory || kinds@[k] == PathKind::File)
                    && match #[trigger] out@[k] {
                    ScanTarget::File(p) => kinds@[k] == PathKind::File && p@ == paths@[k]@,
                    ScanTarget::Directory(p) => kinds@[k] == PathKind::Directory && p@ == paths@[k]@,
                },
        decreases paths@.len() - i,
    {
        match resolve_path(paths[i].as_str(), kinds[i]) {
            Ok(t) => {
                out.push(t);
            },
            Err(e) => {
                assert forall|k: int| 0 <= k < i implies (#[trigger] kinds@[k] == PathKind::Directory
                    || kinds@[k] == PathKind::File) by {
                    assert(match out@[k] {
                        ScanTarget::File(p) => kinds@[k] == PathKind::File,
                        ScanTarget::Directory(p) => kinds@[k] == PathKind::Directory,
                    });
                }
                assert(match e {
                    ScopeError::PathNotFound(p) => kinds@[i as int] == PathKind::Missing && p@ == paths@[i as int]@,
                    ScopeError::MetadataUnavailable { path: p } => kinds@[i as int] == PathKind::Other && p@
                        == paths@[i as int]@,
                });
                return Err(e);
            },
        }
        i = i + 1;
    }
    Ok(out)
}

/// The targets of a git-aware scan: each changed path that is a regular
/// file, in order; a deleted path (or anything else) is not scanned.
pub fn changed_targets(paths: &[String], kinds: &[PathKind]) -> (r: Vec<ScanTarget>)
    requires
        kinds@.len() == paths@.len(),
    ensures
        r@ == paths@.zip_with(kinds@).filter(|e: (String, PathKind)| e.1 == PathKind::File).map_values(
            |e: (String, PathKind)| ScanTarget::File(e.0),
        ),
{
    let ghost z = paths@.zip_with(kinds@);
    let mut out: Vec<ScanTarget> = Vec::new();
    let mut i: usize = 0;
    proof {
        reveal(Seq::filter);
        assert(z.subrange(0, 0).filter(|e: (String, PathKind)| e.1 == PathKind::File) =~= Seq::<(String, PathKind)>::empty());
    }
    while i < paths.len()
        invariant
            i <= paths@.len() == kinds@.len(),
            z == paths@.zip_with(kinds@),
            out@ == z.subrange(0, i as int).filter(|e: (String, PathKind)| e.1 == PathKind::File).map_values(
                |e: (String, PathKind)| ScanTarget::File(e.0),
            ),
        decreases paths@.len() - i,
    {
        let ghost prev = out@;
        proof {
            let sub = z.subrange(0, i + 1);
            assert(sub.drop_last() =~= z.subrange(0, i as int));
            assert(sub.last() == (paths@[i as int], kinds@[i as int]));
            reveal(Seq::filter);
        }
        if kinds[i] == PathKind::File {
            out.push(ScanTarget::File(paths[i].clone()));
            proof {
                assert(out@ =~= z.subrange(0, i + 1).filter(|e: (String, PathKind)| e.1 == PathKind::File).map_values(
                    |e: (String, PathKind)| ScanTarget::File(e.0),
                ));
            }
        } else {
            proof {
                assert(out@ =~= z.subrange(0, i + 1).filter(|e: (String, PathKind)| e.1 == PathKind::File).map_values(
                    |e: (String, PathKind)| ScanTarget::File(e.0),
                ));
            }
        }
        i = i + 1;
    }
    assert(z.subrange(0, paths@.len() as int) =~= z);
    out
}

} // verus!
