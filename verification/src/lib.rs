//! An arithmetic-expression engine: a lexer, a contextualizer that resolves
//! names and puts in the multiplications that a text leaves out, and a
//! reducer that folds operands and operators into a tree by precedence
//! tier. Each has a contract over a mathematical model of its input and
//! result, and the laws that connect them are proved in `laws`.
//!
//! Numbers are held as the text of their decimal literals: the library
//! decides what an expression means, and leaves the arithmetic of doubles
//! to its caller.
//!
//! - `text`: character classes, strings and numerals.
//! - `operator`, `token`: the vocabulary of the lexer.
//! - `grammar`: which tokens a text denotes.
//! - `lex`: the lexer.
//! - `env`: the names that an expression may use, and the angle modes.
//! - `syntax`: which tree a token sequence denotes.
//! - `ast`: expression trees, the contextualizer and the reducer.
//! - `laws`: what holds of all of them together.

pub mod operator;
pub mod text;
pub mod token;
pub mod grammar;
pub mod lex;
pub mod env;
pub mod ast;
pub mod syntax;
pub mod laws;
