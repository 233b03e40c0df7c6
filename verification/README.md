# Neon

A compiler's front and middle: from source text to a program in SSA form with its reference
counts in place.

- `src/lexer`: text to tokens, comments and line starts.
- `src/parser`: tokens to a syntax tree, with recovery from errors.
- `src/ops`: the one table of operators and their precedence.
- `src/number`, `src/stdlib`, `src/lint`: numbers for expressions, files of the library, warnings.
- `src/types`, `src/check`: what a type checker hands on, as plain tables.
- `src/ir`: layouts, lowering, the optimiser, writes in place, narrowed stores, covered bounds
  checks, reference counts, and the pipeline that runs them.

Every function of `src/` has a contract that Verus proves. The spec functions next to each pass say
what the pass computes; the public proof functions say what holds of it.

`app/` holds what needs floating point or formats errors for people. `tests/` runs the library.
