# cel

A parser and interpreter for the Common Expression Language (CEL), verified
with Verus; floating-point values are held as their bits and computed by the
embedder.

- `src/parser/lexer.rs`: the lexer, on characters, with token spans in bytes.
- `src/parser/winnow_parser.rs`: the recursive-descent parser, its options,
  error recovery and limits; every expression gets a unique id with a span.
- `src/parser/macros.rs`: the macros `has`, `all`, `exists`, `exists_one`,
  `map` and `filter`, expanded while parsing.
- `src/parser/double.rs`: whether a floating-point literal denotes a finite
  double, decided exactly on its digits.
- `src/parser/parse.rs`: string and bytes literals and their escapes.
- `src/parser/errors.rs`: parse errors, kept in source order, and how they
  are shown.
- `src/parser/references.rs`: the variables and functions an expression uses.
- `src/checker/container.rs`: the candidate names a name resolves to in a
  container.
- `src/common/`: the syntax tree, types and trait masks; the integer,
  string and bytes operators of values, integer conversions, list indexing
  (`common/types/`); the overloads a function is declared with
  (`common/decls.rs`).
- `src/env.rs`, `src/registry.rs`: the environment of functions and their
  overloads, and the registry of named types.
- `src/eval.rs`: values, the context of variables and functions, and the
  evaluation of an expression, stated over plain values in `eval_spec`;
  comprehensions charge their iterations to the runtime frame.
- `src/runtime.rs`, `src/budget.rs`: runtime options, the evaluation frame
  that counts iterations and polls for interrupts, deadlines.
- `src/objects.rs`, `src/magic.rs`, `src/macros.rs`: map keys, string and
  bytes values, value types, and naming helpers.

Every function in `src/` is verified, but for a few small wrappers of
standard-library calls whose contracts are trusted; the tests in `tests/`
run the library.
