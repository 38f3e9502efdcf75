//! A binding-power expression parser.
//!
//! A line of single-character tokens (digits, letters, the operators
//! `+ - * / ! . =` and parentheses) is parsed into a tree whose rendering is a
//! fully parenthesised, operator-first expression.

pub mod laws;
pub mod lexer;
pub mod parser;
pub mod power;
pub mod tree;

pub use lexer::Lexer;
pub use parser::{expr, expr_bp, ParseError};
pub use power::binding_power;
pub use tree::S;
