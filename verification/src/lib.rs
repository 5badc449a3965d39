//! A verified interpreter for a small parenthesized arithmetic language:
//! the four operators `+ - * /` applied to integers inside nested
//! s-expressions.  Raw text is tokenized, the token stream is built into a
//! tree, and the tree is reduced recursively to a value.
pub mod ast;
pub mod eval;
pub mod operations;
pub mod parse;
pub mod token;
