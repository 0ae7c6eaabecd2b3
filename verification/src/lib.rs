pub mod ast;
pub mod lexer;
pub mod parser;
pub mod runtime;
pub mod table;
pub mod text;
