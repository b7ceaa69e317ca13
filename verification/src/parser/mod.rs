pub mod double;
pub mod errors;
pub mod lexer;
pub mod macros;
pub mod parse;
pub mod references;
pub mod winnow_parser;
