//! Scanning: YAML tokens, scanner state, character classes and the
//! tokenizer that turns source text into tokens.

pub mod scan;
pub mod quoted;
pub mod block;
pub mod tokenize;
pub mod state;
pub mod token_processor;
pub mod optimizations;
pub mod tokens;

pub use tokens::{QuoteStyle, Token, TokenType};
