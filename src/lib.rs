pub mod laws;
pub mod lexer;
pub mod printer;
pub mod reader;
pub mod repl;
pub mod types;
