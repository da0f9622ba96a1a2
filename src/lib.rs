//! Front end of the Razor language: a tokenizer over raw source bytes, an
//! incremental precedence-aware expression-tree builder, and a recursive-descent
//! parser of top-level items, each with its behaviour stated as a contract.
pub mod util;
pub mod token;
pub mod lexer;
pub mod expr_tree;
pub mod item;
pub mod parser;
pub mod codegen;
