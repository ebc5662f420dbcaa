//! A lossless, error-tolerant front end for a small expression language:
//! a trivia-aware tokenizer, a marker-based Pratt expression parser that
//! records tree-construction events, and a reduction of those events into a
//! single rooted syntax tree whose leaves reproduce the input exactly.

pub mod grammar;
pub mod laws;
pub mod lexer;
pub mod parse;
pub mod parser;
pub mod syntax_kind;
pub mod token_kind;
pub mod tree;

pub use lexer::{tokenize, Token};
pub use parse::{parse, Parse};
pub use parser::Diagnostic;
pub use syntax_kind::SyntaxKind;
pub use token_kind::TokenKind;
pub use tree::{Element, Node};
