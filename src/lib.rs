//! A small interpreter for a toy scripting language with Sanskrit keywords:
//! a lexer, a recursive-descent parser and a tree-walking evaluator, with the
//! canonical rendering of tokens that the lexer reads back.

pub mod token;
pub mod lexer;
pub mod render;
pub mod parser;
pub mod interpreter;
