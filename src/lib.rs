//! Reading and writing Yacc/Bison grammar files: a tokenizer, a parser that
//! builds a grammar document, and a printer that writes one back out.
pub mod token;
pub mod lexer;
pub mod grammar;
pub mod parser;
pub mod display;
mod text;
