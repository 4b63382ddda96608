//! A small arithmetic expression front end: a lexer that turns a line of text
//! into tokens and a recursive-descent parser that builds a syntax tree from
//! them. Every function carries a contract over the mathematical model of the
//! text, a sequence of characters, and is proved against it.

pub mod ast;
pub mod chars;
pub mod decimal;
pub mod grammar;
pub mod lex;
pub mod message;
pub mod parser;
pub mod scan;
pub mod token;
