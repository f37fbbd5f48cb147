//! A rule-driven lexical scanner.
//!
//! A [`Lexer`] holds an ordered list of rules, each a compiled pattern with a
//! handler that classifies what the pattern matched. Scanning a text lets the
//! rules claim positions of the text in the order of their registration: a
//! match is turned into a [`Token`] only if none of its positions was claimed
//! before, and the tokens come back ordered by where they start.

pub mod claims;
pub mod engine;
pub mod laws;
pub mod lexer;
pub mod rule;
pub mod scan;
pub mod span;
pub mod token;

pub use crate::lexer::{Lexer, PatternError};
pub use crate::rule::LexerRule;
pub use crate::span::{Match, Span};
pub use crate::token::Token;
