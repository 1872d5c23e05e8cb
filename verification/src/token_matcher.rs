//! Compiled pattern matchers: exact literals and anchored regular
//! expressions.
//!
//! Compiling a pattern is the only fallible step in building a lexer. A
//! literal pattern is stored as its exact text and matched by byte-prefix
//! comparison, so regular-expression metacharacters in it have no special
//! meaning. A regular-expression pattern is compiled with a start anchor
//! forced on (one is prepended unless the author already wrote one), and a
//! probe accepts only a match that begins at offset zero of the probed text.
//!
//! The regular-expression engine itself is the `regex` crate; the handful of
//! declarations below that carry `external_body` or `uninterp` are the only
//! facts about it that are taken on trust.

use vstd::prelude::*;
use vstd::string::StrSliceExecFns;
use vstd::string::StringExecFns;
use vstd::string::StringSliceAdditionalSpecFns;
use vstd::utf8::encode_utf8;
use vstd::utf8::encode_utf8_valid_utf8;
use vstd::utf8::is_char_boundary;

use crate::encoding::lemma_boundary_transfer;
use crate::encoding::lemma_char_prefix_to_bytes;
use crate::encoding::lemma_suffix_bytes;
use crate::encoding::suffix_chars;
use crate::encoding::lemma_valid_prefix_is_boundary;
use crate::encoding::is_str_prefix;
use crate::encoding::str_byte_len;
use crate::error::LexError;

verus! {

/// A compiled regular expression of the `regex` crate, opaque to
/// verification; its one modelled attribute is the pattern text it was
/// compiled from (see [`regex_pattern`]).
#[verifier::external_type_specification]
#[verifier::external_body]
pub struct ExRegex(regex::Regex);

/// The pattern a compiled `regex::Regex` stands for. For every value this
/// module compiles (always `regex::Regex::new`, so with the default
/// configuration) it is the pattern text handed to the compiler, which the
/// crate keeps verbatim (`regex::Regex::as_str` returns it); values built
/// some other way carry some pattern equivalent to their behaviour.
pub uninterp spec fn regex_pattern(r: regex::Regex) -> Seq<char>;

/// Whether `regex::Regex::new` accepts the pattern. Compilation is
/// deterministic in the pattern text (the default builder configuration is
/// fixed), so acceptance is a function of the pattern alone.
pub uninterp spec fn regex_ok(pattern: Seq<char>) -> bool;

/// The leftmost match that `regex::Regex::find` reports for a pattern on a
/// haystack, as half-open byte offsets into the haystack's UTF-8 encoding.
/// Searching is deterministic, so the outcome is a function of the pattern
/// and the haystack alone.
pub uninterp spec fn regex_find_span(pattern: Seq<char>, text: Seq<char>) -> Option<(usize, usize)>;

/// Relies on `regex::Regex::new`: it accepts or rejects a pattern
/// deterministically, and the compiled value keeps its pattern text
/// (`regex::Regex::as_str`). A rejection is reported as the compiler's
/// message.
#[verifier::external_body]
fn regex_new(pattern: &str) -> (r: Result<regex::Regex, String>)
    ensures
        r is Ok <==> regex_ok(pattern@),
        (match r {
            Ok(re) => regex_pattern(re) == pattern@,
            Err(_) => true,
        }),
{
    match regex::Regex::new(pattern) {
        Ok(re) => Ok(re),
        Err(e) => Err(e.to_string()),
    }
}

/// Relies on `regex::Regex::find`: it reports the leftmost match as byte
/// offsets with `start <= end`, both within the haystack and both guaranteed
/// by the crate to lie on UTF-8 character boundaries.
#[verifier::external_body]
fn regex_find(re: &regex::Regex, text: &str) -> (r: Option<(usize, usize)>)
    ensures
        r == regex_find_span(regex_pattern(*re), text@),
        (match r {
            Some((s, e)) => s <= e <= encode_utf8(text@).len() && is_char_boundary(
                encode_utf8(text@),
                s as int,
            ) && is_char_boundary(encode_utf8(text@), e as int),
            None => true,
        }),
{
    match re.find(text) {
        Some(m) => Some((m.start(), m.end())),
        None => None,
    }
}

/// What a compiled matcher matches: the pattern text, tagged by how it is
/// interpreted.
pub enum PatternModel {
    /// Exact text, matched byte for byte.
    Literal(Seq<char>),
    /// The text handed to the regular-expression compiler, anchor included.
    Regexp(Seq<char>),
}

/// The pattern text as the regular-expression compiler receives it: a start
/// anchor is prepended unless the author already began with one.
pub open spec fn anchored(pat: Seq<char>) -> Seq<char> {
    if pat.len() > 0 && pat[0] == '^' {
        pat
    } else {
        seq!['^'] + pat
    }
}

/// The number of bytes a matcher consumes at the start of `text`, or `None`
/// if it does not match there.
///
/// A literal matches exactly when it is a character prefix of the text, and
/// consumes its own encoded length. A regular expression matches exactly
/// when the leftmost match the engine finds begins at offset zero, and
/// consumes up to that match's end. Either consumed length may be zero.
pub open spec fn match_len(m: PatternModel, text: Seq<char>) -> Option<int> {
    match m {
        PatternModel::Literal(p) => if p.len() <= text.len() && text.take(p.len() as int) == p {
            Some(encode_utf8(p).len() as int)
        } else {
            None
        },
        PatternModel::Regexp(p) => match regex_find_span(p, text) {
            Some((s, e)) => if s == 0 && e <= encode_utf8(text).len() && is_char_boundary(
                encode_utf8(text),
                e as int,
            ) {
                Some(e as int)
            } else {
                None
            },
            None => None,
        },
    }
}

/// A consumed length always stays within the text and ends on a character
/// boundary of its encoding.
pub proof fn lemma_match_len_in_range(m: PatternModel, text: Seq<char>)
    ensures
        (match match_len(m, text) {
            Some(l) => 0 <= l <= encode_utf8(text).len() && is_char_boundary(
                encode_utf8(text),
                l,
            ),
            None => true,
        }),
{
    match m {
        PatternModel::Literal(p) => {
            if p.len() <= text.len() && text.take(p.len() as int) == p {
                lemma_char_prefix_to_bytes(p, text);
                encode_utf8_valid_utf8(text);
                encode_utf8_valid_utf8(p);
                assert(encode_utf8(text).subrange(0, encode_utf8(p).len() as int)
                    =~= encode_utf8(text).take(encode_utf8(p).len() as int));
                lemma_valid_prefix_is_boundary(encode_utf8(text), encode_utf8(p).len() as int);
            }
        },
        PatternModel::Regexp(_) => {},
    }
}

/// A consumed length at byte offset `pos` of the input stays within the
/// input and lands on a character boundary, seen from the whole input.
pub proof fn lemma_match_len_at(m: PatternModel, text: Seq<char>, pos: int)
    requires
        0 <= pos <= encode_utf8(text).len(),
        is_char_boundary(encode_utf8(text), pos),
    ensures
        (match match_len(m, suffix_chars(text, pos)) {
            Some(l) => 0 <= l <= encode_utf8(text).len() - pos && is_char_boundary(
                encode_utf8(text),
                pos + l,
            ),
            None => true,
        }),
{
    lemma_suffix_bytes(text, pos);
    lemma_match_len_in_range(m, suffix_chars(text, pos));
    match match_len(m, suffix_chars(text, pos)) {
        Some(l) => {
            encode_utf8_valid_utf8(text);
            lemma_boundary_transfer(encode_utf8(text), pos, l);
        },
        None => {},
    }
}

/// A compiled pattern matcher.
#[derive(Debug)]
pub enum TokenMatcher {
    /// A compiled regular expression, anchored to the start of the probed
    /// text.
    RegexMatcher {
        /// The compiled expression.
        pattern: regex::Regex,
    },
    /// An exact text to compare byte for byte.
    LiteralMatcher {
        /// The literal text.
        pattern: String,
    },
}

impl TokenMatcher {
    /// The pattern this matcher stands for.
    pub open spec fn model(self) -> PatternModel {
        match self {
            TokenMatcher::RegexMatcher { pattern } => PatternModel::Regexp(regex_pattern(pattern)),
            TokenMatcher::LiteralMatcher { pattern } => PatternModel::Literal(pattern@),
        }
    }

    /// Compiles a pattern. A literal always compiles to itself; a regular
    /// expression is start-anchored and compiles exactly when the
    /// expression's syntax is accepted, and anything else reports
    /// `InvalidRegex` with the pattern as the author wrote it.
    pub fn try_new(pattern: &str, is_regex: bool) -> (r: Result<TokenMatcher, LexError>)
        ensures
            is_regex ==> ((r is Ok) <==> regex_ok(anchored(pattern@))),
            !is_regex ==> r is Ok,
            (match r {
                Ok(m) => m.model() == (if is_regex {
                    PatternModel::Regexp(anchored(pattern@))
                } else {
                    PatternModel::Literal(pattern@)
                }),
                Err(e) => e matches LexError::InvalidRegex { pattern: p, error: _ } && p@
                    == pattern@,
            }),
    {
        if is_regex {
            let anchored_pat: String = if !pattern.is_empty() && pattern.get_char(0) == '^' {
                pattern.to_owned()
            } else {
                let mut s = String::new();
                s.append("^");
                s.append(pattern);
                proof {
                    reveal_strlit("^");
                    assert(s@ =~= anchored(pattern@));
                }
                s
            };
            match regex_new(anchored_pat.as_str()) {
                Ok(re) => Ok(TokenMatcher::RegexMatcher { pattern: re }),
                Err(detail) => Err(
                    LexError::InvalidRegex { pattern: pattern.to_owned(), error: detail },
                ),
            }
        } else {
            Ok(TokenMatcher::LiteralMatcher { pattern: pattern.to_owned() })
        }
    }

    /// Probes the start of `text` and reports how many bytes the matcher
    /// consumes there, or `None` if it does not match.
    pub fn try_match(&self, text: &str) -> (r: Option<usize>)
        ensures
            (match match_len(self.model(), text@) {
                Some(l) => r matches Some(n) && n as int == l,
                None => r is None,
            }),
    {
        match self {
            TokenMatcher::LiteralMatcher { pattern } => {
                if is_str_prefix(pattern.as_str(), text) {
                    Some(str_byte_len(pattern.as_str()))
                } else {
                    None
                }
            },
            TokenMatcher::RegexMatcher { pattern } => {
                match regex_find(pattern, text) {
                    Some((s, e)) => if s == 0 {
                        Some(e)
                    } else {
                        None
                    },
                    None => None,
                }
            },
        }
    }
}

} // verus!
