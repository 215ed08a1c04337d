//! Arithmetic expressions: a lexer that turns text into tokens and a
//! precedence-climbing parser that turns tokens into a syntax tree.
pub mod text;
pub mod tokenizer;
pub mod parser;
pub mod expression;
pub mod flatten;
