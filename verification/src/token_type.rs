//! The interface a token-type definition offers the engine.
//!
//! A type implementing [`TokenType`] describes its own tokenizer as data: an
//! ordered rule table and an ordered skip list. How the table was produced —
//! written by hand, generated, or loaded — is invisible to the engine, which
//! only ever receives the finished table through [`TokenType::lexer`].

use vstd::prelude::*;

use crate::error::LexError;
use crate::lexer::Lexer;
use crate::lexer::compiled_model;
use crate::token_creator::TokenCreator;
use crate::token_parser::TokenParser;

verus! {

/// A token type that carries its own rule table.
pub trait TokenType: Sized + Clone {
    /// The field-parser type the table's `Parser` creators use.
    type Parser: TokenParser<Self>;

    /// The ordered token rules: a creator, a pattern, and whether the
    /// pattern is a regular expression. Earlier rules have priority.
    fn matchers() -> Vec<(TokenCreator<Self, Self::Parser>, &'static str, bool)>;

    /// The ordered skip patterns, each with its regular-expression tag.
    fn skip_patterns() -> Vec<(&'static str, bool)>;

    /// Compiles this type's rule table over the given input: the engine
    /// holds exactly the tables that `matchers()` and `skip_patterns()`
    /// supplied, in their order, with the cursor at the start.
    fn lexer(input: &str) -> (r: Result<Lexer<Self, Self::Parser>, LexError>)
        ensures
            (match r {
                Ok(lx) => exists|
                    ms: Vec<(TokenCreator<Self, Self::Parser>, &'static str, bool)>,
                    sks: Vec<(&'static str, bool)>,
                |
                    #[trigger] call_ensures(Self::matchers, (), ms) && #[trigger] call_ensures(
                        Self::skip_patterns,
                        (),
                        sks,
                    ) && lx.pos() == 0 && lx.input_chars() == input@ && lx.table().len()
                        == ms@.len() && (forall|i: int|
                        0 <= i < ms@.len() ==> (#[trigger] lx.table()[i]).1 == ms@[i].0
                            && lx.table()[i].0.model() == compiled_model(ms@[i].1@, ms@[i].2))
                        && lx.skip_models().len() == sks@.len() && (forall|i: int|
                        0 <= i < sks@.len() ==> lx.skip_models()[i] == compiled_model(
                            (#[trigger] sks@[i]).0@,
                            sks@[i].1,
                        )),
                Err(e) => e is InvalidRegex,
            }),
    {
        let ms = Self::matchers();
        let sks = Self::skip_patterns();
        proof {
            assert(call_ensures(Self::matchers, (), ms));
            assert(call_ensures(Self::skip_patterns, (), sks));
        }
        let ghost gsks = sks@;
        let r = Lexer::new(input, ms, sks);
        proof {
            if let Ok(lx) = &r {
                assert(lx.skip_models() == gsks.map_values(
                    |s: (&str, bool)| compiled_model(s.0@, s.1),
                ));
                assert(forall|i: int|
                    0 <= i < gsks.len() ==> lx.skip_models()[i] == compiled_model(
                        (#[trigger] gsks[i]).0@,
                        gsks[i].1,
                    ));
            }
        }
        r
    }
}

} // verus!
