# compose_idents

Verified parts of the `compose!` macro family: the reading of its input,
the resolve phase of its alias language (type checking, binding calls to
signatures), and the substitution of aliases into a block of Rust code, both
as identifiers and as `% alias %` placeholders inside string literals.

Layout:

- `src/` — the library, verified with Verus.
  - `token.rs`: the token-tree model of Rust source that substitution works on;
    a string literal that substitution writes is held by its contents.
  - `value.rs`, `types.rs`, `ast.rs`, `env.rs`: values, types, expressions and
    the function signatures and coercions of the alias language.
  - `scope.rs`, `resolve.rs`, `interpreter.rs`: the resolve phase (type
    checking, binding every call to its cheapest signature, duplicate-alias
    detection).
  - `format_string.rs`: expansion of placeholders in strings.
  - `substitute.rs`, `substitutions.rs`, `visitor.rs`: the token walk that
    replaces aliases and validates every intermediate stream.
  - `product.rs`: the cartesian product used to expand loops.
  - `parse.rs`, `grammar.rs`: the grammar of the macro's input (loops, alias
    specifications, calls, values, the block and its separators) and of the
    item attribute's arguments.
- `tests/` — tests of the library, run against the real `proc-macro2` and `syn`.
- `app/` — the `syn` side: conversions between `proc-macro2` token streams and
  the library's tokens, the walk over a `syn` code block, and value parsing.
