//! The scanning engine.
//!
//! A `Lexer` owns one input string, a cursor (a byte offset, always on a
//! character boundary), an ordered table of token rules, and an ordered list
//! of skip patterns. One production step applies the skip patterns to
//! exhaustion, then lets the first token rule that matches win — priority
//! order, never longest match. `scan_from` below is the exact mathematical
//! statement of that step, and every operation of the engine is specified
//! against it.
//!
//! A pattern may legally match zero bytes. To guarantee that the cursor
//! always moves forward, the engine passes over any zero-length match — for
//! skip patterns and token rules alike — and goes on to the next pattern in
//! order, as if it had not matched.

use vstd::prelude::*;
use vstd::pervasive::cloned;
use vstd::string::StrSliceExecFns;
use vstd::string::StringSliceAdditionalSpecFns;
use vstd::utf8::encode_utf8;
use vstd::utf8::encode_utf8_valid_utf8;
use vstd::utf8::is_char_boundary;

use crate::encoding::lemma_encode_utf8_len;
use crate::encoding::lemma_suffix_bytes;
use crate::encoding::lemma_view_is_decoded_bytes;
use crate::encoding::slice_chars;
use crate::encoding::str_byte_len;
use crate::encoding::suffix_chars;
use crate::error::LexError;
use crate::spans::Span;
use crate::spans::emitted_spans;
use crate::spans::lemma_cover_extend;
use crate::spans::lemma_cover_structure;
use crate::spans::lemma_emitted_concat;
use crate::spans::spans_cover;
use crate::token::TokenInfo;
use crate::token_creator::TokenCreator;
use crate::token_matcher::PatternModel;
use crate::token_matcher::TokenMatcher;
use crate::token_matcher::anchored;
use crate::token_matcher::lemma_match_len_at;
use crate::token_matcher::match_len;
use crate::token_matcher::regex_ok;
use crate::token_parser::TokenParser;

verus! {

/// The outcome `out` is one that the creator's field parser can return for
/// the matched text `text` beginning at byte offset `position`.
pub open spec fn creator_parse_outcome<T, P: TokenParser<T>>(
    c: TokenCreator<T, P>,
    text: Seq<char>,
    position: usize,
    out: Result<T, LexError>,
) -> bool {
    exists|s: &str, pv: P|
        c == TokenCreator::<T, P>::Parser(pv) && s@ == text && #[trigger] call_ensures(
            P::parse,
            (&pv, s, position),
            out,
        )
}

/// The byte spans of a token list, each marked as emitted.
pub open spec fn token_spans<T>(toks: Seq<TokenInfo<T>>) -> Seq<Span> {
    toks.map_values(|t: TokenInfo<T>| Span { lo: t.start as int, hi: t.end as int, emitted: true })
}

/// One winning application of a token rule: which rule won, and the byte
/// span it consumed.
pub struct LexemeAt {
    /// The winning rule's position in the table.
    pub index: int,
    /// Byte offset where the matched span begins.
    pub start: int,
    /// Byte offset just past the matched span.
    pub end: int,
}

/// Where one production step of the engine lands.
pub enum ScanOutcome {
    /// The cursor reached the end of the input, possibly after skipping.
    Eof,
    /// The token rule at `index` won at byte offset `start` and consumes the
    /// bytes up to `end`.
    Lexeme {
        /// The winning rule's position in the table.
        index: int,
        /// Byte offset where the matched span begins.
        start: int,
        /// Byte offset just past the matched span.
        end: int,
    },
    /// No skip pattern and no token rule matches at byte offset `pos`.
    Stuck {
        /// The cursor position the scan cannot leave.
        pos: int,
    },
}

/// Whether a probe outcome is a match that consumed at least one byte.
pub open spec fn is_positive(o: Option<int>) -> bool {
    match o {
        Some(l) => l > 0,
        None => false,
    }
}

/// The patterns of a matcher list, in order.
pub open spec fn models_of(ms: Seq<TokenMatcher>) -> Seq<PatternModel> {
    ms.map_values(|m: TokenMatcher| m.model())
}

/// The patterns of a rule table, in order.
pub open spec fn table_models<T, P>(rs: Seq<(TokenMatcher, TokenCreator<T, P>)>) -> Seq<
    PatternModel,
> {
    rs.map_values(|r: (TokenMatcher, TokenCreator<T, P>)| r.0.model())
}

/// Which rules of a table are skip rules (consume without emitting).
pub open spec fn table_skip_flags<T, P>(rs: Seq<(TokenMatcher, TokenCreator<T, P>)>) -> Seq<bool> {
    rs.map_values(|r: (TokenMatcher, TokenCreator<T, P>)| r.1 is Skip)
}

/// Whether compiling a pattern succeeds.
pub open spec fn pattern_ok(p: Seq<char>, is_regex: bool) -> bool {
    is_regex ==> regex_ok(anchored(p))
}

/// What a pattern compiles to.
pub open spec fn compiled_model(p: Seq<char>, is_regex: bool) -> PatternModel {
    if is_regex {
        PatternModel::Regexp(anchored(p))
    } else {
        PatternModel::Literal(p)
    }
}

/// The first pattern at or after position `i` of the list that matches a
/// positive number of bytes at the start of `text`, with its consumed
/// length. A zero-length match is passed over.
pub open spec fn first_positive(rules: Seq<PatternModel>, text: Seq<char>, i: int) -> Option<
    (int, int),
>
    decreases rules.len() - i,
{
    if i < 0 || i >= rules.len() {
        None
    } else {
        match match_len(rules[i], text) {
            Some(l) => if l > 0 {
                Some((i, l))
            } else {
                first_positive(rules, text, i + 1)
            },
            None => first_positive(rules, text, i + 1),
        }
    }
}

/// What `first_positive` reports: a winner is in range, matches with exactly
/// the reported positive length, and nothing before it matches positively;
/// no winner means nothing at or after `i` matches positively.
pub proof fn lemma_first_positive(rules: Seq<PatternModel>, text: Seq<char>, i: int)
    requires
        0 <= i,
    ensures
        (match first_positive(rules, text, i) {
            Some((j, l)) => i <= j < rules.len() && l > 0 && match_len(rules[j], text) == Some(l)
                && (forall|k: int|
                i <= k < j ==> !is_positive(match_len(#[trigger] rules[k], text))),
            None => forall|k: int|
                i <= k < rules.len() ==> !is_positive(match_len(#[trigger] rules[k], text)),
        }),
    decreases rules.len() - i,
{
    if i < rules.len() {
        lemma_first_positive(rules, text, i + 1);
    }
}

/// Law: the first rule in declaration order whose pattern matches positively
/// wins, whatever any later rule would consume. If the rule at `i` matches
/// positively, the winner exists and stands at or before `i`.
pub proof fn lemma_priority_over_length(rules: Seq<PatternModel>, text: Seq<char>, i: int)
    requires
        0 <= i < rules.len(),
        is_positive(match_len(rules[i], text)),
    ensures
        (match first_positive(rules, text, 0) {
            Some((j, l)) => 0 <= j <= i,
            None => false,
        }),
{
    lemma_first_positive(rules, text, 0);
    match first_positive(rules, text, 0) {
        Some((j, l)) => {
            if j > i {
                assert(!is_positive(match_len(rules[i], text)));
            }
        },
        None => {
            assert(!is_positive(match_len(rules[i], text)));
        },
    }
}

/// One production step of the engine, from byte offset `pos`: apply the skip
/// patterns to exhaustion, then the first token rule that matches positively
/// wins; a winning rule whose creator is a skip consumes and rescans.
pub open spec fn scan_from(
    skips: Seq<PatternModel>,
    rules: Seq<PatternModel>,
    skip_rule: Seq<bool>,
    text: Seq<char>,
    pos: int,
) -> ScanOutcome
    decreases encode_utf8(text).len() - pos
        when 0 <= pos <= encode_utf8(text).len() && is_char_boundary(encode_utf8(text), pos)
        via scan_from_decreases
{
    if pos == encode_utf8(text).len() {
        ScanOutcome::Eof
    } else {
        match first_positive(skips, suffix_chars(text, pos), 0) {
            Some((i, l)) => scan_from(skips, rules, skip_rule, text, pos + l),
            None => match first_positive(rules, suffix_chars(text, pos), 0) {
                None => ScanOutcome::Stuck { pos },
                Some((i, l)) => if 0 <= i < skip_rule.len() && skip_rule[i] {
                    scan_from(skips, rules, skip_rule, text, pos + l)
                } else {
                    ScanOutcome::Lexeme { index: i, start: pos, end: pos + l }
                },
            },
        }
    }
}

#[via_fn]
proof fn scan_from_decreases(
    skips: Seq<PatternModel>,
    rules: Seq<PatternModel>,
    skip_rule: Seq<bool>,
    text: Seq<char>,
    pos: int,
) {
    if 0 <= pos <= encode_utf8(text).len() && is_char_boundary(encode_utf8(text), pos) && pos
        != encode_utf8(text).len() {
        let rem = suffix_chars(text, pos);
        lemma_first_positive(skips, rem, 0);
        lemma_first_positive(rules, rem, 0);
        match first_positive(skips, rem, 0) {
            Some((i, l)) => {
                lemma_match_len_at(skips[i], text, pos);
            },
            None => {
                match first_positive(rules, rem, 0) {
                    Some((i, l)) => {
                        lemma_match_len_at(rules[i], text, pos);
                    },
                    None => {},
                }
            },
        }
    }
}

/// What a production step's outcome guarantees. The `Lexeme` case is the
/// skip-precedence law: at the winning position no skip pattern matches
/// positively any more, and the winner is exactly the first token rule that
/// does.
pub proof fn lemma_scan_from(
    skips: Seq<PatternModel>,
    rules: Seq<PatternModel>,
    skip_rule: Seq<bool>,
    text: Seq<char>,
    pos: int,
)
    requires
        0 <= pos <= encode_utf8(text).len(),
        is_char_boundary(encode_utf8(text), pos),
    ensures
        (match scan_from(skips, rules, skip_rule, text, pos) {
            ScanOutcome::Eof => true,
            ScanOutcome::Stuck { pos: p } => pos <= p < encode_utf8(text).len()
                && is_char_boundary(encode_utf8(text), p) && first_positive(
                skips,
                suffix_chars(text, p),
                0,
            ) is None && first_positive(rules, suffix_chars(text, p), 0) is None,
            ScanOutcome::Lexeme { index, start, end } => pos <= start < end <= encode_utf8(
                text,
            ).len() && is_char_boundary(encode_utf8(text), start) && is_char_boundary(
                encode_utf8(text),
                end,
            ) && 0 <= index < rules.len() && !(0 <= index < skip_rule.len() && skip_rule[index])
                && first_positive(skips, suffix_chars(text, start), 0) is None && first_positive(
                rules,
                suffix_chars(text, start),
                0,
            ) == Some((index, end - start)),
        }),
    decreases encode_utf8(text).len() - pos,
{
    if pos != encode_utf8(text).len() {
        let rem = suffix_chars(text, pos);
        lemma_first_positive(skips, rem, 0);
        lemma_first_positive(rules, rem, 0);
        match first_positive(skips, rem, 0) {
            Some((i, l)) => {
                lemma_match_len_at(skips[i], text, pos);
                lemma_scan_from(skips, rules, skip_rule, text, pos + l);
            },
            None => {
                match first_positive(rules, rem, 0) {
                    Some((i, l)) => {
                        lemma_match_len_at(rules[i], text, pos);
                        if 0 <= i < skip_rule.len() && skip_rule[i] {
                            lemma_scan_from(skips, rules, skip_rule, text, pos + l);
                        }
                    },
                    None => {},
                }
            },
        }
    }
}

/// Law: skip patterns take precedence. Wherever a production step emits a
/// lexeme, the skip patterns have been driven to exhaustion first — none of
/// them matches positively at the lexeme's start — and the winner is the
/// first token rule that matches positively there.
pub proof fn lemma_skip_precedence(
    skips: Seq<PatternModel>,
    rules: Seq<PatternModel>,
    skip_rule: Seq<bool>,
    text: Seq<char>,
    pos: int,
)
    requires
        0 <= pos <= encode_utf8(text).len(),
        is_char_boundary(encode_utf8(text), pos),
    ensures
        (match scan_from(skips, rules, skip_rule, text, pos) {
            ScanOutcome::Lexeme { index, start, end } => first_positive(
                skips,
                suffix_chars(text, start),
                0,
            ) is None && first_positive(rules, suffix_chars(text, start), 0) == Some(
                (index, end - start),
            ),
            _ => true,
        }),
{
    lemma_scan_from(skips, rules, skip_rule, text, pos);
}

/// Where a whole scan ends if every winning lexeme is accepted and the scan
/// resumes after it: either cleanly at the end of the input, or stuck. Never
/// a lexeme.
pub open spec fn scan_end(
    skips: Seq<PatternModel>,
    rules: Seq<PatternModel>,
    skip_rule: Seq<bool>,
    text: Seq<char>,
    pos: int,
) -> ScanOutcome
    decreases encode_utf8(text).len() - pos
        when 0 <= pos <= encode_utf8(text).len() && is_char_boundary(encode_utf8(text), pos)
        via scan_end_decreases
{
    match scan_from(skips, rules, skip_rule, text, pos) {
        ScanOutcome::Lexeme { index, start, end } => scan_end(skips, rules, skip_rule, text, end),
        ScanOutcome::Eof => ScanOutcome::Eof,
        ScanOutcome::Stuck { pos: p } => ScanOutcome::Stuck { pos: p },
    }
}

#[via_fn]
proof fn scan_end_decreases(
    skips: Seq<PatternModel>,
    rules: Seq<PatternModel>,
    skip_rule: Seq<bool>,
    text: Seq<char>,
    pos: int,
) {
    if 0 <= pos <= encode_utf8(text).len() && is_char_boundary(encode_utf8(text), pos) {
        lemma_scan_from(skips, rules, skip_rule, text, pos);
    }
}

/// The lexemes the scan produces in cursor order from byte offset `pos`,
/// until it reaches the end of the input or sticks: the complete ordered
/// sequence of winning non-skip rule applications. Which token value each
/// one yields is its creator's business; the sequence itself is a function
/// of the tables and the input alone.
pub open spec fn scan_lexemes(
    skips: Seq<PatternModel>,
    rules: Seq<PatternModel>,
    skip_rule: Seq<bool>,
    text: Seq<char>,
    pos: int,
) -> Seq<LexemeAt>
    decreases encode_utf8(text).len() - pos
        when 0 <= pos <= encode_utf8(text).len() && is_char_boundary(encode_utf8(text), pos)
        via scan_lexemes_decreases
{
    match scan_from(skips, rules, skip_rule, text, pos) {
        ScanOutcome::Lexeme { index, start, end } => seq![LexemeAt { index, start, end }]
            + scan_lexemes(skips, rules, skip_rule, text, end),
        ScanOutcome::Eof => Seq::empty(),
        ScanOutcome::Stuck { pos: p } => Seq::empty(),
    }
}

#[via_fn]
proof fn scan_lexemes_decreases(
    skips: Seq<PatternModel>,
    rules: Seq<PatternModel>,
    skip_rule: Seq<bool>,
    text: Seq<char>,
    pos: int,
) {
    if 0 <= pos <= encode_utf8(text).len() && is_char_boundary(encode_utf8(text), pos) {
        lemma_scan_from(skips, rules, skip_rule, text, pos);
    }
}

/// The token is one the lexeme's rule can produce for its span: span and
/// text match exactly, and the kind is a copy of the rule's unit value or an
/// outcome its field parser can return for the matched text at its start.
pub open spec fn token_matches_lexeme<T: Clone, P: TokenParser<T>>(
    table: Seq<(TokenMatcher, TokenCreator<T, P>)>,
    text: Seq<char>,
    lx: LexemeAt,
    tok: TokenInfo<T>,
) -> bool {
    &&& tok.start as int == lx.start
    &&& tok.end as int == lx.end
    &&& tok.text@ == slice_chars(text, lx.start, lx.end)
    &&& 0 <= lx.index < table.len()
    &&& (match table[lx.index].1 {
        TokenCreator::Unit(t) => cloned::<T>(t, tok.kind),
        TokenCreator::Parser(_) => creator_parse_outcome(
            table[lx.index].1,
            slice_chars(text, lx.start, lx.end),
            lx.start as usize,
            Ok(tok.kind),
        ),
        TokenCreator::Skip => false,
    })
}

/// The lexeme's rule yielded a token: a unit rule always does, and a parser
/// rule did exactly when accepting the matched text was among its outcomes.
pub open spec fn lexeme_has_token<T, P: TokenParser<T>>(
    table: Seq<(TokenMatcher, TokenCreator<T, P>)>,
    text: Seq<char>,
    lx: LexemeAt,
) -> bool {
    0 <= lx.index < table.len() && (match table[lx.index].1 {
        TokenCreator::Unit(_) => true,
        TokenCreator::Parser(_) => exists|kind: T|
            creator_parse_outcome(
                table[lx.index].1,
                slice_chars(text, lx.start, lx.end),
                lx.start as usize,
                Ok(kind),
            ),
        TokenCreator::Skip => false,
    })
}

/// The lexeme's field parser rejected the matched text with exactly this
/// error.
pub open spec fn lexeme_failed<T, P: TokenParser<T>>(
    table: Seq<(TokenMatcher, TokenCreator<T, P>)>,
    text: Seq<char>,
    lx: LexemeAt,
    e: LexError,
) -> bool {
    0 <= lx.index < table.len() && table[lx.index].1 is Parser && creator_parse_outcome(
        table[lx.index].1,
        slice_chars(text, lx.start, lx.end),
        lx.start as usize,
        Err(e),
    )
}

/// The batch error is the scan's first failure in cursor order: either every
/// lexeme yielded its token and the scan stuck on an unmatched character at
/// the reported offset, or some lexeme's field parser rejected its matched
/// text with exactly this error and every lexeme before it yielded a token.
pub open spec fn batch_error<T, P: TokenParser<T>>(
    table: Seq<(TokenMatcher, TokenCreator<T, P>)>,
    text: Seq<char>,
    lexemes: Seq<LexemeAt>,
    outcome: ScanOutcome,
    e: LexError,
) -> bool {
    ||| ((forall|j: int|
        0 <= j < lexemes.len() ==> lexeme_has_token(table, text, #[trigger] lexemes[j])) && (
    outcome matches ScanOutcome::Stuck { pos } && e == LexError::UnexpectedChar {
        position: pos as usize,
        character: suffix_chars(text, pos)[0],
    }))
    ||| (exists|k: int|
        0 <= k < lexemes.len() && lexeme_failed(table, text, #[trigger] lexemes[k], e) && (forall|
            j: int,
        |
            0 <= j < k ==> lexeme_has_token(table, text, lexemes[j])))
}

/// Law: field-parser failure propagation. When a batch ends in an error
/// that is not the scan sticking on an unmatched character, some lexeme's
/// field parser produced exactly that error, consulted with the lexeme's
/// matched text and the byte offset where the matched span began; every
/// lexeme before it yielded its token, and the batch carries nothing else —
/// in particular nothing from after the failing lexeme.
pub proof fn lemma_parser_failure_propagation<T: Clone, P: TokenParser<T>>(
    table: Seq<(TokenMatcher, TokenCreator<T, P>)>,
    text: Seq<char>,
    lexemes: Seq<LexemeAt>,
    outcome: ScanOutcome,
    e: LexError,
)
    requires
        batch_error(table, text, lexemes, outcome, e),
        !(outcome is Stuck),
    ensures
        exists|k: int|
            0 <= k < lexemes.len() && table[(#[trigger] lexemes[k]).index].1 is Parser
                && creator_parse_outcome(
                table[lexemes[k].index].1,
                slice_chars(text, lexemes[k].start, lexemes[k].end),
                lexemes[k].start as usize,
                Err(e),
            ) && (forall|j: int| 0 <= j < k ==> lexeme_has_token(table, text, lexemes[j])),
{
    let k = choose|k: int|
        0 <= k < lexemes.len() && lexeme_failed(table, text, #[trigger] lexemes[k], e) && (forall|
            j: int,
        |
            0 <= j < k ==> lexeme_has_token(table, text, lexemes[j]));
    assert(lexeme_failed(table, text, lexemes[k], e));
}

/// Probes an ordered matcher list and reports the consumed length of the
/// first one that matches at least one byte.
fn probe_skips(skips: &Vec<TokenMatcher>, text: &str) -> (r: Option<usize>)
    ensures
        (match first_positive(models_of(skips@), text@, 0) {
            Some((j, l)) => r matches Some(n) && n as int == l,
            None => r is None,
        }),
{
    let ghost models = models_of(skips@);
    let mut i: usize = 0;
    while i < skips.len()
        invariant
            0 <= i <= skips@.len(),
            models == models_of(skips@),
            first_positive(models, text@, 0) == first_positive(models, text@, i as int),
        decreases skips@.len() - i,
    {
        proof {
            assert(models[i as int] == skips@[i as int].model());
        }
        let probe = skips[i].try_match(text);
        if let Some(l) = probe {
            if l > 0 {
                return Some(l);
            }
        }
        proof {
            assert(!is_positive(match_len(models[i as int], text@)));
            assert(first_positive(models, text@, i as int) == first_positive(
                models,
                text@,
                i as int + 1,
            ));
        }
        i += 1;
    }
    None
}

/// Probes an ordered rule table and reports the index and consumed length of
/// the first rule whose matcher matches at least one byte.
fn probe_rules<T, P>(rules: &Vec<(TokenMatcher, TokenCreator<T, P>)>, text: &str) -> (r: Option<
    (usize, usize),
>)
    ensures
        (match first_positive(table_models(rules@), text@, 0) {
            Some((j, l)) => r matches Some((ri, rl)) && ri as int == j && rl as int == l,
            None => r is None,
        }),
{
    let ghost models = table_models(rules@);
    let mut i: usize = 0;
    while i < rules.len()
        invariant
            0 <= i <= rules@.len(),
            models == table_models(rules@),
            first_positive(models, text@, 0) == first_positive(models, text@, i as int),
        decreases rules@.len() - i,
    {
        proof {
            assert(models[i as int] == rules@[i as int].0.model());
        }
        let probe = rules[i].0.try_match(text);
        if let Some(l) = probe {
            if l > 0 {
                return Some((i, l));
            }
        }
        proof {
            assert(!is_positive(match_len(models[i as int], text@)));
            assert(first_positive(models, text@, i as int) == first_positive(
                models,
                text@,
                i as int + 1,
            ));
        }
        i += 1;
    }
    None
}

/// The scanning engine: an input, a cursor, and the compiled rule tables.
pub struct Lexer<T, P> {
    /// The input being scanned.
    input: String,
    /// The cursor, as a byte offset into the input.
    position: usize,
    /// The token rules: a matcher and the creator it feeds, in priority
    /// order.
    matchers: Vec<(TokenMatcher, TokenCreator<T, P>)>,
    /// The skip patterns, in priority order.
    skip_patterns: Vec<TokenMatcher>,
}

impl<T, P> Lexer<T, P> {
    #[verifier::type_invariant]
    spec fn inv(self) -> bool {
        0 <= self.position <= encode_utf8(self.input@).len() && is_char_boundary(
            encode_utf8(self.input@),
            self.position as int,
        )
    }

    /// The input, as characters.
    pub closed spec fn input_chars(self) -> Seq<char> {
        self.input@
    }

    /// The cursor, as a byte offset.
    pub closed spec fn pos(self) -> int {
        self.position as int
    }

    /// The compiled token rules.
    pub closed spec fn table(self) -> Seq<(TokenMatcher, TokenCreator<T, P>)> {
        self.matchers@
    }

    /// The compiled skip patterns.
    pub closed spec fn skip_list(self) -> Seq<TokenMatcher> {
        self.skip_patterns@
    }

    /// The input's length in bytes.
    pub open spec fn input_len(self) -> int {
        encode_utf8(self.input_chars()).len() as int
    }

    /// The token rules' patterns, in priority order.
    pub open spec fn rule_models(self) -> Seq<PatternModel> {
        table_models(self.table())
    }

    /// The skip patterns, in priority order.
    pub open spec fn skip_models(self) -> Seq<PatternModel> {
        models_of(self.skip_list())
    }

    /// Which token rules carry a `Skip` creator.
    pub open spec fn skip_flags(self) -> Seq<bool> {
        table_skip_flags(self.table())
    }

    /// The engine's next production step, taken from the current cursor.
    pub open spec fn scan(self) -> ScanOutcome {
        scan_from(
            self.skip_models(),
            self.rule_models(),
            self.skip_flags(),
            self.input_chars(),
            self.pos(),
        )
    }

    /// Where the whole remaining scan ends.
    pub open spec fn scan_outcome(self) -> ScanOutcome {
        scan_end(
            self.skip_models(),
            self.rule_models(),
            self.skip_flags(),
            self.input_chars(),
            self.pos(),
        )
    }

    /// The complete ordered lexeme sequence of the remaining scan.
    pub open spec fn lexemes(self) -> Seq<LexemeAt> {
        scan_lexemes(
            self.skip_models(),
            self.rule_models(),
            self.skip_flags(),
            self.input_chars(),
            self.pos(),
        )
    }

    /// True when no rule of the table carries a field parser, so that every
    /// step's outcome is a function of the patterns alone.
    pub open spec fn no_parsers(self) -> bool {
        forall|i: int| 0 <= i < self.table().len() ==> !((#[trigger] self.table()[i]).1 is Parser)
    }
}

impl<T: Clone, P: TokenParser<T>> Lexer<T, P> {
    /// Compiles a rule table and an input into a ready engine.
    ///
    /// Each rule is `(creator, pattern, is_regex)` and each skip entry is
    /// `(pattern, is_regex)`; order is priority. Construction succeeds
    /// exactly when every regular-expression pattern compiles, and otherwise
    /// reports `InvalidRegex` for the first pattern that does not — rules
    /// first, then skip patterns, each in order.
    #[verifier::loop_isolation(false)]
    pub fn new(
        input: &str,
        mut matchers: Vec<(TokenCreator<T, P>, &str, bool)>,
        mut skip_patterns: Vec<(&str, bool)>,
    ) -> (r: Result<Lexer<T, P>, LexError>)
        ensures
            (r is Ok <==> ((forall|i: int|
                0 <= i < matchers@.len() ==> pattern_ok(
                    (#[trigger] matchers@[i]).1@,
                    matchers@[i].2,
                )) && (forall|i: int|
                0 <= i < skip_patterns@.len() ==> pattern_ok(
                    (#[trigger] skip_patterns@[i]).0@,
                    skip_patterns@[i].1,
                )))),
            (match r {
                Ok(lx) => lx.pos() == 0 && lx.input_chars() == input@ && lx.table().len()
                    == matchers@.len() && (forall|i: int|
                    0 <= i < matchers@.len() ==> (#[trigger] lx.table()[i]).1 == matchers@[i].0
                        && lx.table()[i].0.model() == compiled_model(
                        matchers@[i].1@,
                        matchers@[i].2,
                    )) && lx.skip_models() == skip_patterns@.map_values(
                    |s: (&str, bool)| compiled_model(s.0@, s.1),
                ),
                Err(e) => e matches LexError::InvalidRegex { pattern: bp, error: _ } && ((
                exists|i: int|
                    0 <= i < matchers@.len() && !pattern_ok(
                        (#[trigger] matchers@[i]).1@,
                        matchers@[i].2,
                    ) && bp@ == matchers@[i].1@ && (forall|j: int|
                        0 <= j < i ==> pattern_ok((#[trigger] matchers@[j]).1@, matchers@[j].2)))
                    || ((forall|i: int|
                    0 <= i < matchers@.len() ==> pattern_ok(
                        (#[trigger] matchers@[i]).1@,
                        matchers@[i].2,
                    )) && (exists|i: int|
                    0 <= i < skip_patterns@.len() && !pattern_ok(
                        (#[trigger] skip_patterns@[i]).0@,
                        skip_patterns@[i].1,
                    ) && bp@ == skip_patterns@[i].0@ && (forall|j: int|
                        0 <= j < i ==> pattern_ok(
                            (#[trigger] skip_patterns@[j]).0@,
                            skip_patterns@[j].1,
                        ))))),
            }),
    {
        let ghost orig_rules = matchers@;
        let ghost orig_skips = skip_patterns@;
        let mut compiled: Vec<(TokenMatcher, TokenCreator<T, P>)> = Vec::new();
        let ghost k: int = 0;
        while matchers.len() > 0
            invariant
                0 <= k <= orig_rules.len(),
                matchers@ == orig_rules.skip(k),
                compiled@.len() == k,
                forall|j: int|
                    0 <= j < k ==> pattern_ok((#[trigger] orig_rules[j]).1@, orig_rules[j].2),
                forall|j: int|
                    0 <= j < k ==> (#[trigger] compiled@[j]).1 == orig_rules[j].0 && compiled@[j].0.model()
                        == compiled_model(orig_rules[j].1@, orig_rules[j].2),
            decreases matchers@.len(),
        {
            let (creator, pat, is_regex) = matchers.remove(0);
            proof {
                assert(orig_rules.skip(k)[0] == orig_rules[k]);
                assert(orig_rules.skip(k).remove(0) =~= orig_rules.skip(k + 1));
            }
            match TokenMatcher::try_new(pat, is_regex) {
                Ok(m) => {
                    compiled.push((m, creator));
                },
                Err(e) => {
                    proof {
                        assert(pat@ == orig_rules[k].1@ && is_regex == orig_rules[k].2);
                        assert(0 <= k < orig_rules.len() && !pattern_ok(
                            (orig_rules[k]).1@,
                            orig_rules[k].2,
                        ));
                    }
                    return Err(e);
                },
            }
            proof {
                k = k + 1;
            }
        }
        proof {
            assert(orig_rules.skip(k) =~= Seq::<(TokenCreator<T, P>, &str, bool)>::empty());
            assert(k == orig_rules.len());
        }
        let mut scompiled: Vec<TokenMatcher> = Vec::new();
        let ghost sk: int = 0;
        while skip_patterns.len() > 0
            invariant
                0 <= sk <= orig_skips.len(),
                skip_patterns@ == orig_skips.skip(sk),
                forall|j: int|
                    0 <= j < orig_rules.len() ==> pattern_ok(
                        (#[trigger] orig_rules[j]).1@,
                        orig_rules[j].2,
                    ),
                scompiled@.len() == sk,
                forall|j: int|
                    0 <= j < sk ==> pattern_ok((#[trigger] orig_skips[j]).0@, orig_skips[j].1),
                forall|j: int|
                    0 <= j < sk ==> (#[trigger] scompiled@[j]).model() == compiled_model(
                        orig_skips[j].0@,
                        orig_skips[j].1,
                    ),
            decreases skip_patterns@.len(),
        {
            let (pat, is_regex) = skip_patterns.remove(0);
            proof {
                assert(orig_skips.skip(sk)[0] == orig_skips[sk]);
                assert(orig_skips.skip(sk).remove(0) =~= orig_skips.skip(sk + 1));
            }
            match TokenMatcher::try_new(pat, is_regex) {
                Ok(m) => {
                    scompiled.push(m);
                },
                Err(e) => {
                    proof {
                        assert(pat@ == orig_skips[sk].0@ && is_regex == orig_skips[sk].1);
                        assert(0 <= sk < orig_skips.len() && !pattern_ok(
                            (orig_skips[sk]).0@,
                            orig_skips[sk].1,
                        ));
                    }
                    return Err(e);
                },
            }
            proof {
                sk = sk + 1;
            }
        }
        proof {
            assert(orig_skips.skip(sk) =~= Seq::<(&str, bool)>::empty());
            assert(sk == orig_skips.len());
        }
        let owned_input = input.to_owned();
        proof {
            encode_utf8_valid_utf8(owned_input@);
            assert(is_char_boundary(encode_utf8(owned_input@), 0));
        }
        let lx = Lexer {
            input: owned_input,
            position: 0,
            matchers: compiled,
            skip_patterns: scompiled,
        };
        proof {
            assert(lx.skip_models() =~= orig_skips.map_values(
                |s: (&str, bool)| compiled_model(s.0@, s.1),
            ));
        }
        Ok(lx)
    }

    /// Produces the next token.
    ///
    /// Returns `None` once the cursor has reached the end of the input
    /// (possibly after consuming trailing skipped text), `Some(Ok(token))`
    /// for the next token, and `Some(Err(..))` when no rule matches at the
    /// cursor or a field parser rejects the matched text. An error ends the
    /// scan as far as the caller honours it: the batch interface stops at
    /// the first error, while further pulls after an error are not given a
    /// meaning beyond this contract.
    #[verifier::loop_isolation(false)]
    #[verifier::rlimit(80)]
    pub fn next_token(&mut self) -> (r: Option<Result<TokenInfo<T>, LexError>>)
        ensures
            final(self).input_chars() == old(self).input_chars(),
            final(self).table() == old(self).table(),
            final(self).skip_list() == old(self).skip_list(),
            old(self).pos() <= final(self).pos() <= old(self).input_len(),
            is_char_boundary(encode_utf8(final(self).input_chars()), final(self).pos()),
            (old(self).scan() is Eof ==> r is None && final(self).pos()
                == old(self).input_len()),
            (old(self).scan() matches ScanOutcome::Stuck { pos } ==> final(self).pos() == pos && r
                == Some(
                Err::<TokenInfo<T>, LexError>(
                    LexError::UnexpectedChar {
                        position: pos as usize,
                        character: suffix_chars(old(self).input_chars(), pos)[0],
                    },
                ),
            )),
            (old(self).scan() matches ScanOutcome::Lexeme { index, start, end }
                ==> final(self).pos() == end && !(old(self).table()[index].1 is Skip)),
            (old(self).scan() matches ScanOutcome::Lexeme { index, start, end } ==> (
            old(self).table()[index].1 matches TokenCreator::Unit(t) ==> r matches Some(Ok(tok))
                && cloned::<T>(t, tok.kind) && tok.text@ == slice_chars(
                old(self).input_chars(),
                start,
                end,
            ) && tok.start as int == start && tok.end as int == end)),
            (old(self).scan() matches ScanOutcome::Lexeme { index, start, end } ==> (
            old(self).table()[index].1 is Parser ==> (match r {
                Some(res) => (match res {
                    Ok(tok) => creator_parse_outcome(
                        old(self).table()[index].1,
                        slice_chars(old(self).input_chars(), start, end),
                        start as usize,
                        Ok(tok.kind),
                    ) && tok.text@ == slice_chars(old(self).input_chars(), start, end)
                        && tok.start as int == start && tok.end as int == end,
                    Err(e) => creator_parse_outcome(
                        old(self).table()[index].1,
                        slice_chars(old(self).input_chars(), start, end),
                        start as usize,
                        Err(e),
                    ),
                }),
                None => false,
            }))),
            (exists|delta: Seq<Span>|
                spans_cover(delta, old(self).pos(), final(self).pos()) && emitted_spans(delta) == (
                match r {
                    Some(Ok(tok)) => seq![
                        Span { lo: tok.start as int, hi: tok.end as int, emitted: true },
                    ],
                    _ => Seq::<Span>::empty(),
                })),
            (r matches Some(Ok(tok)) ==> old(self).pos() <= tok.start as int
                && (tok.start as int) < (tok.end as int) && tok.end as int == final(self).pos()
                && encode_utf8(tok.text@).len() == tok.end - tok.start),
    {
        let ghost orig = *self;
        proof {
            use_type_invariant(&*self);
            assert(spans_cover(Seq::<Span>::empty(), orig.pos(), orig.pos()));
            assert(emitted_spans(Seq::<Span>::empty()) == Seq::<Span>::empty());
        }
        loop
            invariant
                self.input == orig.input,
                self.matchers == orig.matchers,
                self.skip_patterns == orig.skip_patterns,
                orig.pos() <= self.pos() <= orig.input_len(),
                is_char_boundary(encode_utf8(orig.input_chars()), self.pos()),
                scan_from(
                    orig.skip_models(),
                    orig.rule_models(),
                    orig.skip_flags(),
                    orig.input_chars(),
                    self.pos(),
                ) == orig.scan(),
                exists|delta: Seq<Span>|
                    spans_cover(delta, orig.pos(), self.pos()) && emitted_spans(delta)
                        == Seq::<Span>::empty(),
            decreases orig.input_len() - self.pos(),
        {
            let ghost chars = orig.input_chars();
            let ghost tb = encode_utf8(chars);
            let n = str_byte_len(self.input.as_str());
            if self.position == n {
                return None;
            }
            let ghost prev: int = self.pos();
            let remaining = self.input.as_str().split_at(self.position).1;
            proof {
                lemma_view_is_decoded_bytes(remaining);
                lemma_suffix_bytes(chars, prev);
                assert(remaining@ == suffix_chars(chars, prev));
            }
            let skip_probe = probe_skips(&self.skip_patterns, remaining);
            match skip_probe {
                Some(l) => {
                    proof {
                        lemma_first_positive(orig.skip_models(), remaining@, 0);
                        let (j, l0): (int, int) = choose|j: int, l0: int|
                            first_positive(orig.skip_models(), remaining@, 0) == Some((j, l0));
                        assert(first_positive(orig.skip_models(), remaining@, 0) == Some(
                            (j, l as int),
                        ));
                        lemma_match_len_at(orig.skip_models()[j], chars, prev);
                    }
                    let ghost delta0 = choose|d: Seq<Span>|
                        spans_cover(d, orig.pos(), prev) && emitted_spans(d)
                            == Seq::<Span>::empty();
                    self.position = self.position + l;
                    proof {
                        let sp = Span { lo: prev, hi: self.pos(), emitted: false };
                        assert(spans_cover(seq![sp].drop_last(), prev, prev));
                        assert(spans_cover(seq![sp], prev, self.pos()));
                        lemma_cover_extend(delta0, seq![sp], orig.pos(), prev, self.pos());
                        assert((delta0 + seq![sp]).drop_last() =~= delta0);
                        assert(emitted_spans(delta0 + seq![sp]) == Seq::<Span>::empty());
                        assert(spans_cover(delta0 + seq![sp], orig.pos(), self.pos())
                            && emitted_spans(delta0 + seq![sp]) == Seq::<Span>::empty());
                    }
                },
                None => {
                    let rule_probe = probe_rules(&self.matchers, remaining);
                    match rule_probe {
                        None => {
                            proof {
                                assert(suffix_chars(chars, prev).len() > 0);
                            }
                            let c = remaining.get_char(0);
                            return Some(
                                Err(
                                    LexError::UnexpectedChar {
                                        position: self.position,
                                        character: c,
                                    },
                                ),
                            );
                        },
                        Some((idx, l)) => {
                            proof {
                                lemma_first_positive(orig.rule_models(), remaining@, 0);
                                assert(orig.rule_models()[idx as int]
                                    == orig.table()[idx as int].0.model());
                                lemma_match_len_at(orig.rule_models()[idx as int], chars, prev);
                                crate::token_matcher::lemma_match_len_in_range(
                                    orig.rule_models()[idx as int],
                                    remaining@,
                                );
                            }
                            let start = self.position;
                            let l_end = self.position + l;
                            let parts = remaining.split_at(l);
                            let text_slice = parts.0;
                            proof {
                                lemma_view_is_decoded_bytes(text_slice);
                                assert(text_slice.spec_bytes() =~= tb.subrange(prev, prev + l));
                                assert(text_slice@ == slice_chars(chars, prev, prev + l));
                            }
                            let ghost delta0 = choose|d: Seq<Span>|
                                spans_cover(d, orig.pos(), prev) && emitted_spans(d)
                                    == Seq::<Span>::empty();
                            self.position = l_end;
                            let created = self.matchers[idx].1.create(text_slice, start);
                            match created {
                                Ok(Some(kind)) => {
                                    let text_string = text_slice.to_owned();
                                    let tok = TokenInfo::new(kind, text_string, start, l_end);
                                    proof {
                                        assert(orig.skip_flags()[idx as int] == (
                                        orig.table()[idx as int].1 is Skip));
                                        assert(!(orig.table()[idx as int].1 is Skip));
                                        assert(orig.scan() == ScanOutcome::Lexeme {
                                            index: idx as int,
                                            start: prev,
                                            end: prev + l,
                                        });
                                        match orig.table()[idx as int].1 {
                                            TokenCreator::Unit(t) => {
                                                assert(cloned::<T>(t, tok.kind));
                                            },
                                            TokenCreator::Parser(p) => {
                                                let out0 = choose|out: Result<T, LexError>|
                                                    call_ensures(
                                                        P::parse,
                                                        (&p, text_slice, start),
                                                        out,
                                                    ) && (match out {
                                                        Ok(k) => created == Ok::<
                                                            Option<T>,
                                                            LexError,
                                                        >(Some(k)),
                                                        Err(e) => created == Err::<
                                                            Option<T>,
                                                            LexError,
                                                        >(e),
                                                    });
                                                assert(call_ensures(
                                                    P::parse,
                                                    (&p, text_slice, prev as usize),
                                                    out0,
                                                ));
                                                assert(out0 == Ok::<T, LexError>(tok.kind));
                                                assert(creator_parse_outcome(
                                                    old(self).table()[idx as int].1,
                                                    slice_chars(
                                                        old(self).input_chars(),
                                                        prev,
                                                        prev + l,
                                                    ),
                                                    prev as usize,
                                                    out0,
                                                ));
                                            },
                                            TokenCreator::Skip => {
                                                assert(false);
                                            },
                                        }
                                        let sp = Span { lo: prev, hi: prev + l, emitted: true };
                                        assert(spans_cover(seq![sp].drop_last(), prev, prev));
                                        assert(spans_cover(seq![sp], prev, prev + l));
                                        lemma_cover_extend(
                                            delta0,
                                            seq![sp],
                                            orig.pos(),
                                            prev,
                                            prev + l,
                                        );
                                        assert((delta0 + seq![sp]).drop_last() =~= delta0);
                                        assert(emitted_spans(delta0 + seq![sp]) =~= seq![sp]);
                                        assert(spans_cover(delta0 + seq![sp], orig.pos(), self.pos())
                                            && emitted_spans(delta0 + seq![sp]) == seq![
                                            Span { lo: tok.start as int, hi: tok.end as int, emitted: true },
                                        ]);
                                    }
                                    return Some(Ok(tok));
                                },
                                Ok(None) => {
                                    proof {
                                        assert(orig.table()[idx as int].1 is Skip);
                                        assert(orig.skip_flags()[idx as int]);
                                        let sp = Span { lo: prev, hi: prev + l, emitted: false };
                                        assert(spans_cover(seq![sp].drop_last(), prev, prev));
                                        assert(spans_cover(seq![sp], prev, prev + l));
                                        lemma_cover_extend(
                                            delta0,
                                            seq![sp],
                                            orig.pos(),
                                            prev,
                                            prev + l,
                                        );
                                        assert((delta0 + seq![sp]).drop_last() =~= delta0);
                                        assert(emitted_spans(delta0 + seq![sp])
                                            == Seq::<Span>::empty());
                                        assert(spans_cover(delta0 + seq![sp], orig.pos(), self.pos())
                                            && emitted_spans(delta0 + seq![sp])
                                            == Seq::<Span>::empty());
                                    }
                                },
                                Err(e) => {
                                    proof {
                                        assert(orig.skip_flags()[idx as int] == (
                                        orig.table()[idx as int].1 is Skip));
                                        assert(!(orig.table()[idx as int].1 is Skip));
                                        assert(!(orig.table()[idx as int].1 is Unit));
                                        assert(orig.scan() == ScanOutcome::Lexeme {
                                            index: idx as int,
                                            start: prev,
                                            end: prev + l,
                                        });
                                        match orig.table()[idx as int].1 {
                                            TokenCreator::Parser(p) => {
                                                let out0 = choose|out: Result<T, LexError>|
                                                    call_ensures(
                                                        P::parse,
                                                        (&p, text_slice, start),
                                                        out,
                                                    ) && (match out {
                                                        Ok(k) => created == Ok::<
                                                            Option<T>,
                                                            LexError,
                                                        >(Some(k)),
                                                        Err(e2) => created == Err::<
                                                            Option<T>,
                                                            LexError,
                                                        >(e2),
                                                    });
                                                assert(call_ensures(
                                                    P::parse,
                                                    (&p, text_slice, prev as usize),
                                                    out0,
                                                ));
                                                assert(out0 == Err::<T, LexError>(e));
                                                assert(creator_parse_outcome(
                                                    old(self).table()[idx as int].1,
                                                    slice_chars(
                                                        old(self).input_chars(),
                                                        prev,
                                                        prev + l,
                                                    ),
                                                    prev as usize,
                                                    out0,
                                                ));
                                            },
                                            _ => {
                                                assert(false);
                                            },
                                        }
                                        let sp = Span { lo: prev, hi: prev + l, emitted: false };
                                        assert(spans_cover(seq![sp].drop_last(), prev, prev));
                                        assert(spans_cover(seq![sp], prev, prev + l));
                                        lemma_cover_extend(
                                            delta0,
                                            seq![sp],
                                            orig.pos(),
                                            prev,
                                            prev + l,
                                        );
                                        assert((delta0 + seq![sp]).drop_last() =~= delta0);
                                        assert(emitted_spans(delta0 + seq![sp])
                                            == Seq::<Span>::empty());
                                        assert(spans_cover(delta0 + seq![sp], orig.pos(), self.pos())
                                            && emitted_spans(delta0 + seq![sp])
                                            == Seq::<Span>::empty());
                                    }
                                    return Some(Err(e));
                                },
                            }
                        },
                    }
                },
            }
        }
    }
    /// Pulls tokens until the input is exhausted or an error arises, and
    /// returns either the complete token list or the first error alone —
    /// the batch form discards tokens collected before an error.
    ///
    /// On success the scan ran to the end of the input and the list
    /// corresponds one for one, in order, to the scan's lexeme sequence:
    /// each token carries its lexeme's exact span and text, and a kind its
    /// rule can produce — a copy of the unit value, or an outcome of the
    /// field parser on the matched text at its start. The tokens' spans,
    /// with the skipped stretches between them, cover the rest of the input
    /// seamlessly: that is the conservation law. On failure the error is the
    /// scan's first failure in cursor order — the unexpected character where
    /// the scan stuck after all lexemes yielded, or the first field parser
    /// that rejected its text. For a table without field parsers the
    /// success-failure split is exact: the batch succeeds precisely when the
    /// whole scan reaches the end of the input, and otherwise reports the
    /// unexpected character at the exact byte offset where the scan stuck.
    #[verifier::loop_isolation(false)]
    #[verifier::rlimit(80)]
    pub fn collect(self) -> (r: Result<Vec<TokenInfo<T>>, LexError>)
        ensures
            (match r {
                Ok(toks) => toks@.len() == self.lexemes().len() && (forall|i: int|
                    0 <= i < toks@.len() ==> token_matches_lexeme(
                        self.table(),
                        self.input_chars(),
                        self.lexemes()[i],
                        #[trigger] toks@[i],
                    )) && self.scan_outcome() is Eof && (exists|h: Seq<Span>|
                    spans_cover(h, self.pos(), self.input_len()) && emitted_spans(h)
                        == token_spans(toks@)) && (forall|i: int|
                    0 <= i < toks@.len() ==> (#[trigger] toks@[i]).text@ == slice_chars(
                        self.input_chars(),
                        toks@[i].start as int,
                        toks@[i].end as int,
                    ) && self.pos() <= toks@[i].start as int && (toks@[i].start as int) < (
                    toks@[i].end as int) && toks@[i].end as int <= self.input_len()
                        && encode_utf8(toks@[i].text@).len() == toks@[i].end - toks@[i].start) && (forall|
                    i: int,
                    j: int,
                |
                    0 <= i < j < toks@.len() ==> (#[trigger] toks@[i]).end
                        <= (#[trigger] toks@[j]).start),
                Err(e) => batch_error(
                    self.table(),
                    self.input_chars(),
                    self.lexemes(),
                    self.scan_outcome(),
                    e,
                ),
            }),
            (self.input_chars().len() == 0 ==> (r matches Ok(toks) && toks@.len() == 0)),
            (self.no_parsers() ==> ((r is Ok <==> self.scan_outcome() is Eof) && (
            self.scan_outcome() matches ScanOutcome::Stuck { pos } ==> r == Err::<
                Vec<TokenInfo<T>>,
                LexError,
            >(
                LexError::UnexpectedChar {
                    position: pos as usize,
                    character: suffix_chars(self.input_chars(), pos)[0],
                },
            )))),
    {
        let ghost orig = self;
        proof {
            use_type_invariant(&self);
            assert(orig == self);
            assert(spans_cover(Seq::<Span>::empty(), orig.pos(), orig.pos()));
            assert(emitted_spans(Seq::<Span>::empty()) == Seq::<Span>::empty());
            assert(token_spans::<T>(Seq::empty()) =~= Seq::<Span>::empty());
        }
        let mut lx = self;
        let mut toks: Vec<TokenInfo<T>> = Vec::new();
        let ghost mut h: Seq<Span> = Seq::empty();
        let ghost mut taken: Seq<LexemeAt> = Seq::empty();
        proof {
            assert(orig.lexemes() =~= taken + orig.lexemes());
        }
        loop
            invariant
                lx.input_chars() == orig.input_chars(),
                lx.table() == orig.table(),
                lx.skip_list() == orig.skip_list(),
                orig.pos() <= lx.pos() <= orig.input_len(),
                is_char_boundary(encode_utf8(orig.input_chars()), lx.pos()),
                spans_cover(h, orig.pos(), lx.pos()),
                emitted_spans(h) == token_spans(toks@),
                taken.len() == toks@.len(),
                orig.lexemes() == taken + scan_lexemes(
                    orig.skip_models(),
                    orig.rule_models(),
                    orig.skip_flags(),
                    orig.input_chars(),
                    lx.pos(),
                ),
                forall|i: int|
                    0 <= i < taken.len() ==> token_matches_lexeme(
                        orig.table(),
                        orig.input_chars(),
                        taken[i],
                        #[trigger] toks@[i],
                    ),
                forall|i: int|
                    0 <= i < toks@.len() ==> (#[trigger] toks@[i]).text@ == slice_chars(
                        orig.input_chars(),
                        toks@[i].start as int,
                        toks@[i].end as int,
                    ) && orig.pos() <= toks@[i].start as int && (toks@[i].start as int) < (
                    toks@[i].end as int) && toks@[i].end as int <= lx.pos()
                        && encode_utf8(toks@[i].text@).len() == toks@[i].end - toks@[i].start,
                forall|i: int, j: int|
                    0 <= i < j < toks@.len() ==> (#[trigger] toks@[i]).end
                        <= (#[trigger] toks@[j]).start,
                scan_end(
                    orig.skip_models(),
                    orig.rule_models(),
                    orig.skip_flags(),
                    orig.input_chars(),
                    lx.pos(),
                ) == orig.scan_outcome(),
            decreases orig.input_len() - lx.pos(),
        {
            let ghost pre = lx;
            let stepped = lx.next_token();
            proof {
                lemma_scan_from(
                    orig.skip_models(),
                    orig.rule_models(),
                    orig.skip_flags(),
                    orig.input_chars(),
                    pre.pos(),
                );
                assert(orig.rule_models().len() == orig.table().len());
            }
            match stepped {
                None => {
                    proof {
                        let delta = choose|d: Seq<Span>|
                            spans_cover(d, pre.pos(), lx.pos()) && emitted_spans(d)
                                == Seq::<Span>::empty();
                        lemma_cover_extend(h, delta, orig.pos(), pre.pos(), lx.pos());
                        lemma_emitted_concat(h, delta);
                        assert(emitted_spans(h + delta) =~= emitted_spans(h));
                        h = h + delta;
                        assert(scan_lexemes(
                            orig.skip_models(),
                            orig.rule_models(),
                            orig.skip_flags(),
                            orig.input_chars(),
                            pre.pos(),
                        ) =~= Seq::<LexemeAt>::empty());
                        assert(orig.lexemes() =~= taken);
                        if orig.input_chars().len() == 0 {
                            lemma_encode_utf8_len(orig.input_chars());
                            lemma_cover_structure(h, orig.pos(), lx.pos());
                            assert(h.len() == 0);
                            assert(token_spans(toks@).len() == 0);
                            assert(toks@.len() == 0);
                        }
                    }
                    return Ok(toks);
                },
                Some(stepped_result) => {
                    match stepped_result {
                        Ok(tok) => {
                            proof {
                                match pre.scan() {
                                    ScanOutcome::Lexeme { index, start, end } => {
                                        let lxm = LexemeAt { index, start, end };
                                        assert(scan_lexemes(
                                            orig.skip_models(),
                                            orig.rule_models(),
                                            orig.skip_flags(),
                                            orig.input_chars(),
                                            pre.pos(),
                                        ) == seq![lxm] + scan_lexemes(
                                            orig.skip_models(),
                                            orig.rule_models(),
                                            orig.skip_flags(),
                                            orig.input_chars(),
                                            end,
                                        ));
                                        assert(taken + (seq![lxm] + scan_lexemes(
                                            orig.skip_models(),
                                            orig.rule_models(),
                                            orig.skip_flags(),
                                            orig.input_chars(),
                                            end,
                                        )) =~= taken.push(lxm) + scan_lexemes(
                                            orig.skip_models(),
                                            orig.rule_models(),
                                            orig.skip_flags(),
                                            orig.input_chars(),
                                            end,
                                        ));
                                        assert(token_matches_lexeme(
                                            orig.table(),
                                            orig.input_chars(),
                                            lxm,
                                            tok,
                                        ));
                                        taken = taken.push(lxm);
                                        assert(forall|i: int|
                                            0 <= i < taken.len() - 1 ==> taken[i]
                                                == (#[trigger] taken.drop_last()[i]));
                                    },
                                    ScanOutcome::Eof => {
                                        assert(false);
                                    },
                                    ScanOutcome::Stuck { pos: p } => {
                                        assert(false);
                                    },
                                }
                                let delta = choose|d: Seq<Span>|
                                    spans_cover(d, pre.pos(), lx.pos()) && emitted_spans(d)
                                        == seq![
                                        Span {
                                            lo: tok.start as int,
                                            hi: tok.end as int,
                                            emitted: true,
                                        },
                                    ];
                                lemma_cover_extend(h, delta, orig.pos(), pre.pos(), lx.pos());
                                lemma_emitted_concat(h, delta);
                                h = h + delta;
                                assert(emitted_spans(h) =~= token_spans(toks@).push(
                                    Span {
                                        lo: tok.start as int,
                                        hi: tok.end as int,
                                        emitted: true,
                                    },
                                ));
                                assert(token_spans(toks@.push(tok)) =~= token_spans(toks@).push(
                                    Span {
                                        lo: tok.start as int,
                                        hi: tok.end as int,
                                        emitted: true,
                                    },
                                ));
                            }
                            toks.push(tok);
                        },
                        Err(e) => {
                            proof {
                                assert forall|j: int| 0 <= j < taken.len() implies lexeme_has_token(
                                    orig.table(),
                                    orig.input_chars(),
                                    #[trigger] taken[j],
                                ) by {
                                    assert(token_matches_lexeme(
                                        orig.table(),
                                        orig.input_chars(),
                                        taken[j],
                                        toks@[j],
                                    ));
                                }
                                match pre.scan() {
                                    ScanOutcome::Stuck { pos: p } => {
                                        assert(scan_lexemes(
                                            orig.skip_models(),
                                            orig.rule_models(),
                                            orig.skip_flags(),
                                            orig.input_chars(),
                                            pre.pos(),
                                        ) =~= Seq::<LexemeAt>::empty());
                                        assert(orig.lexemes() =~= taken);
                                        assert(orig.scan_outcome() == ScanOutcome::Stuck {
                                            pos: p,
                                        });
                                        assert(batch_error(
                                            orig.table(),
                                            orig.input_chars(),
                                            orig.lexemes(),
                                            orig.scan_outcome(),
                                            e,
                                        ));
                                    },
                                    ScanOutcome::Lexeme { index, start, end } => {
                                        let lxm = LexemeAt { index, start, end };
                                        let rest = scan_lexemes(
                                            orig.skip_models(),
                                            orig.rule_models(),
                                            orig.skip_flags(),
                                            orig.input_chars(),
                                            end,
                                        );
                                        assert(scan_lexemes(
                                            orig.skip_models(),
                                            orig.rule_models(),
                                            orig.skip_flags(),
                                            orig.input_chars(),
                                            pre.pos(),
                                        ) == seq![lxm] + rest);
                                        let k = taken.len() as int;
                                        assert(orig.lexemes()[k] == lxm);
                                        assert(0 <= k < orig.lexemes().len());
                                        assert(lexeme_failed(
                                            orig.table(),
                                            orig.input_chars(),
                                            lxm,
                                            e,
                                        ));
                                        assert(batch_error(
                                            orig.table(),
                                            orig.input_chars(),
                                            orig.lexemes(),
                                            orig.scan_outcome(),
                                            e,
                                        ));
                                    },
                                    ScanOutcome::Eof => {
                                        assert(false);
                                    },
                                }
                                if orig.no_parsers() {
                                    assert(pre.scan() matches ScanOutcome::Stuck { pos: p });
                                }
                                if orig.input_chars().len() == 0 {
                                    lemma_encode_utf8_len(orig.input_chars());
                                    assert(false);
                                }
                            }
                            return Err(e);
                        },
                    }
                },
            }
        }
    }

}

} // verus!
