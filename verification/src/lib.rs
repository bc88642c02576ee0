//! An interpreter for the untyped lambda calculus: a lexer and a parser for
//! terms such as `(λx.λy.x) a b`, reduction to weak head normal form with substitution
//! that renames the binders free in the argument, normalisation with eta
//! reduction, alpha-equivalence and printing.

pub mod error;
pub mod interpreter;
pub mod term;

pub mod lexer;
pub mod parser;
pub mod string_pool;
pub mod text;
pub mod readback;
pub mod rerun;

pub use interpreter::Interpreter;
pub use term::Term;
