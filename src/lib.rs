//! An arithmetic-expression calculator core: a lexer that turns text into
//! tokens, a precedence-climbing parser that turns tokens into an expression
//! tree, and tree printing and folding.
//!
//! Numbers are carried as their decimal literal text; turning a literal into
//! a machine number and doing arithmetic on it is left to the caller.
pub mod lexer;
pub mod parser;
mod text;
