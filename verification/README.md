# hawk_core

A static-analysis engine for Java, JavaScript, TypeScript, Python and Go
source: rule packs (regex patterns, tree-sitter queries and taint rules)
run over parsed files, a cross-file code graph resolves calls, and the
results are reported as text, JSON, SARIF or HTML, with baselines and a
result cache.

- `src/` is the library, verified with Verus. Parsing, query execution and
  regex matching call tree-sitter and the regex crate through a small set of
  trusted wrappers whose contracts name what those crates compute; the rest
  (rule loading, the code graph and call resolution, the taint walk, scan
  bookkeeping, reporting, configuration, command-line parsing) is proved
  against its contracts.
- `app/` is the command-line program around it: file and process I/O,
  TOML and JSON decoding, and parallel scanning.
- `tests/` runs the library on concrete inputs.
