//! A small tree-walking evaluator for a Lisp-like expression language.
//!
//! Source text is turned into tokens ([`tokenize`]), the tokens into an
//! expression tree ([`parse`]), and the tree is reduced against an
//! environment of bindings ([`interpret`]). An [`Interpreter`] keeps one
//! environment across many sources. Every stage is stated over a
//! mathematical model and proved against it.
//!
//! Numbers are exact fractions in lowest terms ([`Number`]). The builtin
//! `exit` ends evaluation with [`Error::Exit`] rather than ending the
//! process, and `read` takes lines that the session was given, failing with
//! [`Error::AwaitingInput`] when there are none.

pub mod env;
pub mod error;
pub mod expr;
pub mod interpret;
pub mod interpreter;
pub mod nesting;
pub mod number;
pub mod parse;
pub mod prelude;
pub mod text;
pub mod token;
pub mod tokenize;

pub use env::Env;
pub use error::Error;
pub use expr::{Builtin, Expr, Lambda};
pub use interpret::interpret;
pub use interpreter::{is_unfinished, Interpreter};
pub use number::Number;
pub use parse::parse;
pub use prelude::{apply_builtin, get_prelude};
pub use token::Token;
pub use tokenize::{tokenize, try_tokenize};
