//! A quasi-quoter over token trees: the library turns a token stream that
//! holds `qquote` / `unquote` markers into the token stream of Rust code
//! that rebuilds it, with the unquoted parts bound by `let`.

pub mod token;
pub mod util;
pub mod builder;
pub mod qtt;
pub mod convert;
pub mod quasi;
pub mod quotable;
pub mod double;
pub mod laws;
pub mod meaning;
