pub mod number;
pub mod text;
pub mod lex;
pub mod ast;
pub mod parser;
pub mod evaluate;
pub mod laws;
