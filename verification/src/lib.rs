//! A small infix calculator core: lexing, infix-to-postfix conversion by the
//! shunting-yard algorithm, and postfix evaluation into an expression tree.
//!
//! The numeric leaves keep their source numerals as text; folding a tree into
//! a machine number is left to the (unverified) caller, since floating-point
//! arithmetic lies outside what the verifier reasons about.

pub mod eval;
pub mod laws;
pub mod lexer;
pub mod postfix;
pub mod token;

pub use eval::parse_and_evaluate;
pub use eval::BinOp;
pub use eval::Expr;
pub use postfix::Postfix;
pub use token::PostfixError;
pub use token::Token;
