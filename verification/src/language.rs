//! Source languages recognised by file extension.

use vstd::prelude::*;
use vstd::string::*;
use crate::paths::{extension_range, spec_extension};
use crate::text::{sbytes, slices_equal};

verus! {

#[derive(Debug, Clone, Copy, PartialEq, Eq, Structural)]
pub enum Language {
    Java,
    JavaScript,
    TypeScript,
    Python,
    Go,
    Unknown,
}

/// The language of a file extension (case-sensitive).
pub open spec fn language_of_extension(ext: Seq<u8>) -> Language {
    if ext == sbytes("java") {
        Language::Java
    } else if ext == sbytes("js") || ext == sbytes("mjs") || ext == sbytes("cjs") {
        Language::JavaScript
    } else if ext == sbytes("ts") || ext == sbytes("mts") || ext == sbytes("cts") || ext == sbytes("tsx") {
        Language::TypeScript
    } else if ext == sbytes("py") || ext == sbytes("pyw") {
        Language::Python
    } else if ext == sbytes("go") {
        Language::Go
    } else {
        Language::Unknown
    }
}

/// The language of a path, decided by its extension.
pub open spec fn language_of_path(path: Seq<u8>) -> Language {
    match spec_extension(path) {
        Some(ext) => language_of_extension(ext),
        None => Language::Unknown,
    }
}

/// A path is detected by the extension of its file name: `.java` is Java;
/// `.js`, `.mjs` and `.cjs` are JavaScript; `.ts`, `.mts`, `.cts` and `.tsx`
/// are TypeScript; `.py` and `.pyw` are Python; `.go` is Go.
pub proof fn lemma_languages_by_extension(path: Seq<u8>)
    ensures
        spec_extension(path) == Some(seq![0x6Au8, 0x61u8, 0x76u8, 0x61u8]) ==> language_of_path(path) == Language::Java,
        spec_extension(path) == Some(seq![0x6Au8, 0x73u8]) ==> language_of_path(path) == Language::JavaScript,
        spec_extension(path) == Some(seq![0x6Du8, 0x6Au8, 0x73u8]) ==> language_of_path(path) == Language::JavaScript,
        spec_extension(path) == Some(seq![0x63u8, 0x6Au8, 0x73u8]) ==> language_of_path(path) == Language::JavaScript,
        spec_extension(path) == Some(seq![0x74u8, 0x73u8]) ==> language_of_path(path) == Language::TypeScript,
        spec_extension(path) == Some(seq![0x6Du8, 0x74u8, 0x73u8]) ==> language_of_path(path) == Language::TypeScript,
        spec_extension(path) == Some(seq![0x63u8, 0x74u8, 0x73u8]) ==> language_of_path(path) == Language::TypeScript,
        spec_extension(path) == Some(seq![0x74u8, 0x73u8, 0x78u8]) ==> language_of_path(path) == Language::TypeScript,
        spec_extension(path) == Some(seq![0x70u8, 0x79u8]) ==> language_of_path(path) == Language::Python,
        spec_extension(path) == Some(seq![0x70u8, 0x79u8, 0x77u8]) ==> language_of_path(path) == Language::Python,
        spec_extension(path) == Some(seq![0x67u8, 0x6Fu8]) ==> language_of_path(path) == Language::Go,
{
    broadcast use is_ascii_spec_bytes;
    reveal_strlit("java");
    assert(is_ascii("java"));
    assert(sbytes("java") =~= seq![0x6Au8, 0x61u8, 0x76u8, 0x61u8]);
    reveal_strlit("js");
    assert(is_ascii("js"));
    assert(sbytes("js") =~= seq![0x6Au8, 0x73u8]);
    reveal_strlit("mjs");
    assert(is_ascii("mjs"));
    assert(sbytes("mjs") =~= seq![0x6Du8, 0x6Au8, 0x73u8]);
    reveal_strlit("cjs");
    assert(is_ascii("cjs"));
    assert(sbytes("cjs") =~= seq![0x63u8, 0x6Au8, 0x73u8]);
    reveal_strlit("ts");
    assert(is_ascii("ts"));
    assert(sbytes("ts") =~= seq![0x74u8, 0x73u8]);
    reveal_strlit("mts");
    assert(is_ascii("mts"));
    assert(sbytes("mts") =~= seq![0x6Du8, 0x74u8, 0x73u8]);
    reveal_strlit("cts");
    assert(is_ascii("cts"));
    assert(sbytes("cts") =~= seq![0x63u8, 0x74u8, 0x73u8]);
    reveal_strlit("tsx");
    assert(is_ascii("tsx"));
    assert(sbytes("tsx") =~= seq![0x74u8, 0x73u8, 0x78u8]);
    reveal_strlit("py");
    assert(is_ascii("py"));
    assert(sbytes("py") =~= seq![0x70u8, 0x79u8]);
    reveal_strlit("pyw");
    assert(is_ascii("pyw"));
    assert(sbytes("pyw") =~= seq![0x70u8, 0x79u8, 0x77u8]);
    reveal_strlit("go");
    assert(is_ascii("go"));
    assert(sbytes("go") =~= seq![0x67u8, 0x6Fu8]);
}

fn ext_is(ext: &[u8], word: &str) -> (r: bool)
    ensures
        r == (ext@ == sbytes(word)),
{
    slices_equal(ext, word.as_bytes())
}

impl Language {
    /// Detects the language of `path` from its extension.
    pub fn from_path(path: &str) -> (r: Language)
        ensures
            r == language_of_path(sbytes(path)),
    {
        let bytes = path.as_bytes();
        match extension_range(bytes) {
            None => Language::Unknown,
            Some((s, e)) => {
                let ext = vstd::slice::slice_subrange(bytes, s, e);
                if ext_is(ext, "java") {
                    Language::Java
                } else if ext_is(ext, "js") || ext_is(ext, "mjs") || ext_is(ext, "cjs") {
                    Language::JavaScript
                } else if ext_is(ext, "ts") || ext_is(ext, "mts") || ext_is(ext, "cts") || ext_is(ext, "tsx") {
                    Language::TypeScript
                } else if ext_is(ext, "py") || ext_is(ext, "pyw") {
                    Language::Python
                } else if ext_is(ext, "go") {
                    Language::Go
                } else {
                    Language::Unknown
                }
            }
        }
    }
}

} // verus!
