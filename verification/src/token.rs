//! Positioned, classified token records.

use vstd::prelude::*;

verus! {

/// A token together with the exact half-open byte span of the input it was
/// produced from.
#[derive(Debug, Clone, PartialEq, Eq)]
pub struct TokenInfo<T> {
    /// The token value.
    pub kind: T,
    /// The text that was matched.
    pub text: String,
    /// The byte offset in the input where the matched text begins.
    pub start: usize,
    /// The byte offset in the input just past the matched text (exclusive).
    pub end: usize,
}

impl<T> TokenInfo<T> {
    /// Packs a token value with its matched text and byte span.
    pub fn new(kind: T, text: String, start: usize, end: usize) -> (r: Self)
        ensures
            r.kind == kind,
            r.text == text,
            r.start == start,
            r.end == end,
    {
        TokenInfo { kind, text, start, end }
    }
}

} // verus!
