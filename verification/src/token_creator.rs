//! Token creators: how a matched span becomes a token value, or none.

use vstd::prelude::*;
use vstd::pervasive::cloned;

use crate::error::LexError;
use crate::token_parser::TokenParser;

verus! {

/// How a rule turns matched text into a token.
#[derive(Clone)]
pub enum TokenCreator<T, P> {
    /// Emit a copy of a fixed value; the matched text is ignored.
    Unit(T),
    /// Emit whatever the attached field parser makes of the matched text,
    /// or fail with the parser's error.
    Parser(P),
    /// Consume the match but emit nothing.
    Skip,
}

impl<T: Clone, P: TokenParser<T>> TokenCreator<T, P> {
    /// Applies the creator to matched text that began at byte offset
    /// `position`.
    ///
    /// A `Unit` creator always yields its value, a `Skip` creator always
    /// yields nothing, and a `Parser` creator yields whatever its parser
    /// returned for exactly these arguments.
    pub fn create(&self, text: &str, position: usize) -> (r: Result<Option<T>, LexError>)
        ensures
            (match *self {
                TokenCreator::Unit(t) => r matches Ok(Some(k)) && cloned::<T>(t, k),
                TokenCreator::Skip => r matches Ok(k) && k is None,
                TokenCreator::Parser(p) => exists|out: Result<T, LexError>|
                    call_ensures(P::parse, (&p, text, position), out) && (match out {
                        Ok(k) => r == Ok::<Option<T>, LexError>(Some(k)),
                        Err(e) => r == Err::<Option<T>, LexError>(e),
                    }),
            }),
    {
        match self {
            TokenCreator::Unit(token) => Ok(Some(token.clone())),
            TokenCreator::Parser(parser) => {
                let parsed = parser.parse(text, position);
                proof {
                    assert(call_ensures(P::parse, (parser, text, position), parsed));
                }
                match parsed {
                    Ok(token) => Ok(Some(token)),
                    Err(e) => Err(e),
                }
            },
            TokenCreator::Skip => Ok(None),
        }
    }
}

impl<T, P> From<T> for TokenCreator<T, P> {
    /// Wraps a token value as the `Unit` creator that emits copies of it.
    fn from(token: T) -> (r: Self) {
        TokenCreator::Unit(token)
    }
}

impl<T, P> vstd::std_specs::convert::FromSpecImpl<T> for TokenCreator<T, P> {
    open spec fn obeys_from_spec() -> bool {
        true
    }

    open spec fn from_spec(token: T) -> Self {
        TokenCreator::Unit(token)
    }
}

} // verus!
