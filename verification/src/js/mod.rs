//! Script support: the lexer, the parser, syntax operators, instructions and typed arrays.
pub mod ast;
pub mod bytecode;
pub mod lexer;
pub mod parser;
pub mod value;
