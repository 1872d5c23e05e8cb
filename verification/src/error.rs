//! Structured lexing errors.

use vstd::prelude::*;

verus! {

/// An error raised while building or running a lexer.
///
/// `InvalidRegex` can only arise while a rule table is compiled; the two
/// other variants can only arise while scanning, and each one ends the scan.
#[derive(Debug, Clone, PartialEq, Eq)]
pub enum LexError {
    /// No skip pattern and no token rule matched at `position`.
    UnexpectedChar {
        /// The byte offset in the input where the scan got stuck.
        position: usize,
        /// The character found there.
        character: char,
    },
    /// A rule's regular-expression pattern failed to compile.
    InvalidRegex {
        /// The pattern text as the rule author wrote it.
        pattern: String,
        /// What the regular-expression compiler reported.
        error: String,
    },
    /// A rule's field parser rejected the matched text.
    TokenParseError {
        /// The byte offset where the matched span began.
        position: usize,
        /// What the parser reported.
        error: String,
    },
}

} // verus!
