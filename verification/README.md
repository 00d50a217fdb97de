# dsqlex

An evaluator for DSQLEX, a small SQL-like expression language
(`CASE WHEN amount > 100 THEN 'big' ELSE 'small' END`), written in Verus:
the functions of the library carry contracts, and Verus proves that the
code meets them. The calls into `rust_decimal`, `regex` and a few std
string functions go through small `#[verifier::external_body]` wrappers
(in `src/decimal.rs`, `src/evaluator.rs` and `src/text.rs`); their
contracts are trusted, not proved, and most name the outside result
rather than describe it.

## Layout

- `src/tokens.rs`, `src/lexer.rs` — tokens and the tokenizer, with the
  token sequence of an input stated as a spec function (`spec_tokenize`).
- `src/ast.rs`, `src/parser.rs` — the expression tree and a
  recursive-descent parser, with the grammar stated as spec functions
  (`spec_parse`).
- `src/decimal.rs` — `Dec`, a `rust_decimal::Decimal` held as its 16-byte
  serialized form, with a mathematical view; arithmetic, rounding, parsing
  and printing go through `rust_decimal`.
- `src/evaluator.rs` — values, contexts, and evaluation, stated as the spec
  function `eval`. Resolvers are modelled as answers: evaluation either
  finishes or asks for the value of a field or an event, and `evaluate`
  asks the caller's closures and evaluates again with the answers so far.
- `src/laws.rs` — properties of the whole library: short-circuiting,
  negations, the order of values, COALESCE and CASE, case-insensitive
  keywords, the optional `SELECT` and the shape of a parsed tree, `IN` as membership.
- `src/lib.rs` — the entry points `parse`, `eval`, `eval_with_options`,
  `eval_string`, `eval_string_with_options`, and `DsqlexError`.
- `app/lib.rs` — `Display` and `std::error::Error` for an error type and
  for values, which the verified types cannot carry.

## Semantics worth knowing

- Mixing `AND` with `OR`, or `+ -` with `* /`, needs parentheses.
- Arithmetic that overflows the decimal range is an error
  (`Addition overflowed`, ...), not a panic.
- Strings that read as numbers compare as numbers; `LIKE` is
  case-insensitive with `%` and `_` as wildcards (neither matches a
  newline).
