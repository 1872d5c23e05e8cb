//! The field-parser capability consumed by `Parser` creators.

use vstd::prelude::*;

use crate::error::LexError;

verus! {

/// Turns matched text into a token value, or fails.
///
/// Implementors receive the matched text and the byte offset where the
/// matched span began; a failure is conventionally reported as
/// `LexError::TokenParseError` carrying that offset.
pub trait TokenParser<T> {
    /// Parses the matched text into a value, or reports why it cannot.
    fn parse(&self, input: &str, position: usize) -> Result<T, LexError>;
}

/// A placeholder parser for rule tables whose creators never parse.
///
/// It stands in for the parser type parameter when every rule is a `Unit` or
/// `Skip` creator, and fails if it is ever consulted.
pub struct NoParser;

impl NoParser {
    /// What the placeholder always answers: a parse failure carrying the
    /// byte offset it was consulted at.
    pub fn refuse<T>(&self, position: usize) -> (r: Result<T, LexError>)
        ensures
            (match r {
                Err(LexError::TokenParseError { position: p, error: _ }) => p == position,
                _ => false,
            }),
    {
        Err(
            LexError::TokenParseError {
                position,
                error: "this rule table attaches no field parser".to_owned(),
            },
        )
    }
}

impl<T> TokenParser<T> for NoParser {
    fn parse(&self, _input: &str, position: usize) -> Result<T, LexError> {
        self.refuse(position)
    }
}

} // verus!
