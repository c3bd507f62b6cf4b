//! A minimal S-expression library: a tokenizer, a stack-based structural
//! parser, and a renderer that is the parser's inverse on canonical text.

pub mod ast;
pub mod laws;
pub mod numeral;
pub mod parser;
pub mod render;
pub mod tokenizer;

pub use ast::Atom;
pub use ast::Expr;
pub use parser::parse;
pub use parser::ParseError;
