pub mod ast;
pub mod error;
pub mod laws;
pub mod layout;
pub mod lexer;
pub mod parser;
pub mod render;
pub mod reparse;
pub mod source;
pub mod syntax;
pub mod text;
pub mod validate;
