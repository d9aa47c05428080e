//! Lexical analysis for the Monkey language: a verified single-pass scanner
//! with one byte of lookahead, turning source text into classified tokens.

pub mod lexer;
pub mod token;
