//! A lexical analyzer: splits a line of text on whitespace and classifies each
//! word as a number, an identifier, a keyword or an operator.

pub mod token;
pub mod rules;
pub mod lexer;
pub mod laws;
