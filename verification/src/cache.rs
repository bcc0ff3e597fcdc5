//! Incrementality cache: per source file, the hash of its content and the
//! findings emitted for it. Entries carry a schema string so results are
//! never reused across incompatible versions. Reading and writing entries is
//! the caller's business; this module names them and decides whether a
//! stored entry may be reused.

use vstd::prelude::*;
use vstd::string::*;
use crate::finding::{Finding, Findings};
use crate::paths::{join_path, spec_join};
use crate::text::{push_str, sbytes, text_of};

pub use crate::hashing::hash_bytes;

verus! {

/// The schema discriminator: entries written by another version are ignored.
pub const CACHE_SCHEMA: &'static str = "0.1.0";

#[derive(Debug, PartialEq, Eq)]
pub struct CacheError {
    pub message: String,
}

/// Content-addressed entry: schema and file hash, with the findings.
#[derive(Debug, PartialEq, Eq)]
pub struct CacheEntry {
    pub schema: String,
    pub source_hash: String,
    pub findings: Vec<Finding>,
}

/// A cache rooted at a directory (e.g. `.hawk/cache`).
#[derive(Debug)]
pub struct Cache {
    root: String,
}

impl Cache {
    pub closed spec fn root_view(&self) -> Seq<char> {
        self.root@
    }

    pub fn new(root: String) -> (r: Cache)
        ensures
            r.root_view() == root@,
    {
        Cache { root }
    }

    /// Where the entry of `source_hash` lives: a two-character shard
    /// directory, then `<hash>.cache.json`.
    pub fn path_for(&self, source_hash: &str) -> (r: String)
        requires
            sbytes(source_hash).len() >= 2,
            vstd::utf8::is_char_boundary(sbytes(source_hash), 2),
        ensures
            exists|shard: &str|
                sbytes(shard) == sbytes(source_hash).subrange(0, 2) && r@ == spec_join(
                    spec_join(self.root_view(), shard@),
                    source_hash@ + ".cache.json"@,
                ),
    {
        let shard = match text_of(source_hash, 0, 2) {
            Some(t) => t,
            None => {
                proof {
                    vstd::utf8::encode_utf8_valid_utf8(source_hash@);
                    vstd::utf8::is_char_boundary_start_end_of_seq(sbytes(source_hash));
                }
                assert(false);
                ""
            },
        };
        let dir = join_path(self.root.as_str(), shard);
        let mut file = source_hash.to_owned();
        push_str(&mut file, ".cache.json");
        join_path(dir.as_str(), file.as_str())
    }

    /// The findings of a stored entry when it may be reused for a file with
    /// hash `source_hash`: same schema, same hash.
    pub fn reusable(entry: CacheEntry, source_hash: &str) -> (r: Option<Vec<Finding>>)
        ensures
            match r {
                Some(fs) => entry.schema@ == CACHE_SCHEMA@ && entry.source_hash@ == source_hash@ && fs@
                    == entry.findings@,
                None => !(entry.schema@ == CACHE_SCHEMA@ && entry.source_hash@ == source_hash@),
            },
    {
        if crate::text::str_eq(entry.schema.as_str(), CACHE_SCHEMA) && crate::text::str_eq(
            entry.source_hash.as_str(),
            source_hash,
        ) {
            Some(entry.findings)
        } else {
            None
        }
    }

    /// The entry recording `findings` for a file with hash `source_hash`.
    pub fn entry_for(source_hash: &str, findings: &Findings) -> (r: CacheEntry)
        ensures
            r.schema@ == CACHE_SCHEMA@,
            r.source_hash@ == source_hash@,
            r.findings@ == findings.view(),
    {
        let fs = findings.as_slice();
        let mut out: Vec<Finding> = Vec::new();
        let mut i: usize = 0;
        while i < fs.len()
            invariant
                i <= fs@.len(),
                out@ == fs@.subrange(0, i as int),
            decreases fs@.len() - i,
        {
            out.push(fs[i].clone());
            i = i + 1;
            assert(out@ =~= fs@.subrange(0, i as int));
        }
        assert(fs@.subrange(0, fs@.len() as int) =~= fs@);
        CacheEntry { schema: CACHE_SCHEMA.to_owned(), source_hash: source_hash.to_owned(), findings: out }
    }
}

/// A stored entry is reused exactly for the hash it was written for.
pub proof fn lemma_entry_round_trip(entry: CacheEntry, source_hash: Seq<char>, other: Seq<char>)
    requires
        entry.schema@ == CACHE_SCHEMA@,
        entry.source_hash@ == source_hash,
    ensures
        (entry.schema@ == CACHE_SCHEMA@ && entry.source_hash@ == other) <==> other == source_hash,
{
}

impl CacheError {
    /// The error message.
    pub fn to_string(&self) -> (r: String)
        ensures
            r@ == self.message@,
    {
        self.message.clone()
    }
}

} // verus!
