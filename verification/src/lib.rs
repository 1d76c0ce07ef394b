//! The front end of a tree-walking language: a lexer that turns source
//! bytes into an ordered token stream ending in a single end-of-input
//! token, and a recursive-descent parser that turns the tokens into one
//! owned expression tree. Both are specified by mathematical scan and parse
//! functions over sequences, and the executable code is verified to return
//! exactly what those functions describe.

pub mod parser;
pub mod scanner;
pub mod spans;
