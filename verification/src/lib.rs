//! A small prefix-notation calculator language: a scanner that turns text
//! into tokens, a parser that builds an expression tree, and an evaluator
//! that reduces a tree to a single exact rational value using a table of
//! named variadic operations.

pub mod canon;
pub mod interpreter;
pub mod lexer;
pub mod parser;
pub mod numeral;
pub mod round_trip;
pub mod source_stream;
pub mod value;
