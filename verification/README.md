# rust_yaml

A YAML library written in Verus. Its scanner, parser, composers and the
source-preserving round-trip document are verified against their
`requires`/`ensures`, and the proofs are checked by Verus. How much a
contract pins down differs: the composers state the value of every node
they compose (scalars typed, sequence items and mapping entries in
order, merges and repeated keys), the span walker states every span
tree, and assembling documents from the token, event and value streams
states exactly when it succeeds and what each document holds. The
tokenizer and the parser state the shape of their output (positions,
nesting, how streams open and close) and their result only on small
inputs; so `RoundTripDocument::parse_all` and `parse` promise success on
blank text only, and tie a document's value and spans to its text only
through the streams the pipeline hands on.

Layout:

- `src/scanner/` — tokens, the tokenizer (`scan.rs`, `quoted.rs`,
  `block.rs`, `tokenize.rs`), scanner state and small scanning helpers.
- `src/parser/` — events, the recursive-descent parser (`parse.rs`) and
  parser helpers (event buffer, state stack, batching reader).
- `src/compose.rs` — typed values from events: core-schema scalars,
  anchors and aliases, duplicate keys and `<<` merge keys.
- `src/composer_optimized.rs` — `ReducedAllocComposer`: documents
  composed into `Rc`-shared `OptimizedValue`s, with a bound on how deep
  a structure an alias may stand for.
- `src/resolver.rs`, `src/numbers.rs` — implicit typing of plain scalars.
- `src/roundtrip.rs` — `RoundTripDocument`: byte-for-byte round trips
  and surgical edits addressed by paths.
- `src/zerocopy.rs` — strings and tokens that borrow from the input.
- `app/` — a small program, and a serde-enabled copy of `Position`.

Main guarantees: `RoundTripDocument::parse` keeps the input verbatim,
`parse_all` splits a stream into documents whose sources concatenate to
the input, and `set`/`replace_span` change exactly the addressed bytes or
leave the document untouched. Every composed mapping has distinct keys,
and a `<<` merge never overrides a key the mapping already has. Float
scalars are kept by their spelling, since the library holds no
floating-point numbers, and compared by the exact decimal value they
spell (`1.0`, `1.00` and `10e-1` are one key; spellings that differ in
value but round to the same binary float stay apart).
