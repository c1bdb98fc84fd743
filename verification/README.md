# mallard

A deterministic code index for Rust, Python and TypeScript sources: it
walks a tree, extracts symbols, edges (calls, imports, containment) and
rule findings per file, resolves call targets across files, and answers
structural queries over the result (find, callers, callees, expand,
blast radius, test seams, symbol diff between two indexes, PR review).

The library in `src/` is written in Verus. Each public function carries a
contract over a mathematical model of its inputs and result, and the laws
that span several functions (ordering of walks, edges and findings,
what resolution keeps and changes, how far a graph expansion reaches, how
a symbol diff pairs entries, what the PR-review budget drops) are stated
as proof functions beside the code they speak of.

Layout:

- `src/model.rs`, `src/store.rs`: the index's records and tables, the
  writer and the call resolver.
- `src/syntax.rs`, `src/parsed_source.rs`, `src/extract*.rs`: parsing
  through tree-sitter and the per-language symbol extractors.
- `src/rules.rs`: ast-grep rule sets (in any language ast-grep knows) and
  their findings.
- `src/walk.rs`, `src/file_processor.rs`, `src/index.rs`: the index build;
  `src/rebuild.rs`: that two builds of the same inputs write the same rows.
- `src/query*.rs`, `src/pr_review.rs`: queries over a built index.
- `src/order.rs`, `src/text.rs`: orderings and text helpers the rest
  rests on.
- `app/`: the command-line program (argument parsing, file-system walk,
  DuckDB persistence, JSON output).
- `tests/`: tests run against the compiled library.
