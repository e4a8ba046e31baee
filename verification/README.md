# fon_parser

A verified parser for FON (Fer Object Notation), written in Verus. It turns
in-memory FON source into a lossless token stream, an indexed concrete syntax
tree and a source-backed syntax AST; resolves unknown atoms through a scheme
that the caller provides; formats documents; and materializes them as JSON.

## Layout

- `src/lexer.rs`: the lexer, against `lex_spec`, a step-by-step model of
  lexical analysis; the tokens and trivia tile the source.
- `src/parser/`: recursive-descent parsing with error recovery into the arena
  AST (`src/ast/`), which stays well formed (every node refers only to older
  nodes) and backed by the source text.
- `src/lib.rs`: `parse`, `parse_with_options`, `parse_bytes`, the contract
  `parse_outcome` they meet, and the library's laws as proof functions.
- `src/format.rs`: lossless reprinting and canonical formatting, each against
  a specification of its output text.
- `src/resolve.rs`, `src/hir.rs`, `src/scheme.rs`: resolution of a document
  into typed HIR through a `SchemeResolver`.
- `src/json.rs`: materialization as JSON values and text, schema descriptors,
  and struct defaults. Numbers are read by `serde_json`.
- `src/cst.rs`: the read-only CST visitor.
- `app/`: serializable copies of the public types, conversions to and from
  `serde_json` values, and standard errors; ordinary Rust around the library.
- `tests/`: tests of the public API.
