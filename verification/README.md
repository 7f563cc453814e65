# easy_analyzer

A verified front end for a small Rust-like teaching language: a lexer, a
recursive-descent parser, and a semantic analyzer that reports errors and
generates quadruples (four-address intermediate code).

## Layout

- `src/` — the library, written and proved with Verus.
  - `lexer.rs` — source text to tokens; its contract is the full lexical
    grammar (`lex_from`), including the error messages and positions.
  - `syntax.rs` — which stretch of a token list spells which syntax tree,
    with operator precedence and associativity.
  - `parser.rs` — tokens to a syntax tree; every tree it returns is spelled
    by the tokens it was given.
  - `ast.rs`, `types.rs`, `symbol.rs`, `ir.rs`, `text.rs` — the syntax tree,
    the semantic types, the scoped symbol table, the quadruple builder and
    string helpers, each with its mathematical model.
  - `semantic.rs` — the analyzer: the rules it checks, the messages it
    reports and the shape of the code it generates.
- `tests/` — scenarios run against the compiled library.
- `app/` — the command-line programs and the HTTP service (JSON in and out)
  around the library.
