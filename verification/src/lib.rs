//! Random programs from a context-free grammar: a lexer and parser for the
//! grammar notation, and a generator that walks the parsed grammar.
pub mod cfg;
pub mod cliargs;
pub mod draws;
pub mod lexer;
pub mod parse_spec;
pub mod parser;
pub mod text;
pub mod generate;
pub mod fuzz;
