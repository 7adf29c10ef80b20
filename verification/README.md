# qquote

A quasi-quoter over token trees, verified with Verus.

A quote is a token stream in which `unquote e` marks an expression `e`
to be spliced in and `qquote` opens a nested quote. The library reads a
quote, binds each unquoted expression and each bracketed group to a fresh
identifier, and produces the token stream of Rust code that rebuilds the
quote at run time.

Layout of `src/`:

- `token.rs` — token trees (`Token`, `TokenTree`, `TokenStream`) and their
  mathematical model (`SpecTree`).
- `builder.rs` — builders for the pieces of generated code (`let`, calls,
  `vec!`, the code of one token) and the escaping of string literals.
- `qtt.rs` — the intermediate form of a quote (`QTT`, `QDelimited`),
  bindings, and `Gensym`, the source of fresh identifiers.
- `quasi.rs` — reading a quote (`qquote_iter`) and the whole quoter
  (`qquoter`, `qquote`).
- `convert.rs` — turning the intermediate form into code
  (`convert_complex_tts`, `unravel`).
- `quotable.rs` — the `Quotable` trait: what a spliced value turns into.
- `double.rs` — the example macros `double!`, `double2!` and `cond!`.
- `meaning.rs` — what the generated code computes, and the proof that it
  rebuilds the quote.
- `laws.rs` — further properties of the quoter as a whole.

What an expansion of `qquote!` evaluates to is the vector of token trees
that the quote spells, with each unquoted expression's value (a token tree)
in its place; that is what the macros written with it, such as `double!`
and `cond!`, need. Quoting `5` therefore gives the tree `5`, not the
number: the tests run the expansion and then read the value of the
expression that the resulting trees spell.

`app/` registers the macros with the compiler and converts between the
compiler's token trees and the library's; it needs the compiler's own
`syntax` and `rustc_plugin` crates.
