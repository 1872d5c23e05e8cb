//! A priority-ordered, rule-driven tokenizer.
//!
//! A caller hands the engine an ordered table of pattern rules (literal or
//! regular-expression, each paired with a token creator) and an ordered list
//! of skip patterns, together with an input string. The engine walks the
//! input by byte offset, applies skip rules to exhaustion before every token
//! attempt, lets the first matching rule win (priority order, not longest
//! match), and produces positioned tokens or a structured error.

pub mod encoding;
pub mod error;
pub mod lexer;
pub mod spans;
pub mod token;
pub mod token_creator;
pub mod token_matcher;
pub mod token_parser;
pub mod token_type;
