use sea_lex::error::LexError;
use sea_lex::lexer::Lexer;
use sea_lex::token_creator::TokenCreator;
use sea_lex::token_parser::NoParser;
use sea_lex::token_parser::TokenParser;

#[derive(Debug, Clone, PartialEq, Eq)]
enum Tok {
    Number(i64),
    Letter(String),
    LiteralBackslashD,
    Unit,
}

enum Parse {
    Int,
    Letter,
    AlwaysFails,
}

impl TokenParser<Tok> for Parse {
    fn parse(&self, input: &str, position: usize) -> Result<Tok, LexError> {
        match self {
            Parse::Int => match input.parse::<i64>() {
                Ok(n) => Ok(Tok::Number(n)),
                Err(e) => Err(LexError::TokenParseError { position, error: e.to_string() }),
            },
            Parse::Letter => Ok(Tok::Letter(input.to_string())),
            Parse::AlwaysFails => Err(LexError::TokenParseError {
                position,
                error: format!("cannot make a token of {:?}", input),
            }),
        }
    }
}

/// All consumed spans of a fully scanned input tile it exactly: token spans
/// are in order, and skipped stretches fill every gap.
#[test]
fn test_conservation_of_spans() {
    let lexer: Lexer<Tok, Parse> = Lexer::new(
        "  12 abc  7 ",
        vec![
            (TokenCreator::Parser(Parse::Int), r"\d+", true),
            (TokenCreator::Parser(Parse::Letter), r"[a-z]+", true),
        ],
        vec![(r"\s+", true)],
    )
    .unwrap();
    let tokens = lexer.collect().unwrap();

    let spans: Vec<(usize, usize)> = tokens.iter().map(|t| (t.start, t.end)).collect();
    assert_eq!(spans, vec![(2, 4), (5, 8), (10, 11)]);

    let input = "  12 abc  7 ";
    let mut covered = 0;
    for t in &tokens {
        assert!(t.start >= covered);
        assert!(input[covered..t.start].chars().all(char::is_whitespace));
        assert_eq!(&input[t.start..t.end], t.text);
        covered = t.end;
    }
    assert!(input[covered..].chars().all(char::is_whitespace));

    let token_bytes: usize = tokens.iter().map(|t| t.end - t.start).sum();
    let skipped_bytes = input.len() - token_bytes;
    assert_eq!(token_bytes + skipped_bytes, input.len());
}

/// An earlier literal rule beats a later regular-expression rule that would
/// consume more text.
#[test]
fn test_priority_over_length() {
    let make = |input: &str| -> Lexer<Tok, Parse> {
        Lexer::new(
            input,
            vec![
                (TokenCreator::Unit(Tok::LiteralBackslashD), "\\d", false),
                (TokenCreator::Parser(Parse::Int), r"\d+", true),
            ],
            vec![],
        )
        .unwrap()
    };

    let tokens = make("\\d").collect().unwrap();
    assert_eq!(tokens.len(), 1);
    assert_eq!(tokens[0].kind, Tok::LiteralBackslashD);

    let tokens = make("123").collect().unwrap();
    assert_eq!(tokens.len(), 1);
    assert_eq!(tokens[0].kind, Tok::Number(123));
}

/// Skip rules run to exhaustion before any token rule is consulted.
#[test]
fn test_skip_precedence() {
    let lexer: Lexer<Tok, Parse> = Lexer::new(
        "  42   ",
        vec![(TokenCreator::Parser(Parse::Int), r"\d+", true)],
        vec![(r"\s+", true)],
    )
    .unwrap();
    let tokens = lexer.collect().unwrap();

    assert_eq!(tokens.len(), 1);
    assert_eq!(tokens[0].kind, Tok::Number(42));
    assert_eq!((tokens[0].start, tokens[0].end), (2, 4));
}

/// A literal made of a two-byte character consumes both bytes, and the next
/// rule is probed at that byte offset.
#[test]
fn test_multibyte_spans() {
    let lexer: Lexer<Tok, Parse> = Lexer::new(
        "ƒoo",
        vec![
            (TokenCreator::Unit(Tok::Unit), "ƒ", false),
            (TokenCreator::Parser(Parse::Letter), r"[a-z]+", true),
        ],
        vec![],
    )
    .unwrap();
    let tokens = lexer.collect().unwrap();

    assert_eq!(tokens.len(), 2);
    assert_eq!(tokens[0].kind, Tok::Unit);
    assert_eq!((tokens[0].start, tokens[0].end), (0, 2));
    assert_eq!(tokens[1].kind, Tok::Letter("oo".to_string()));
    assert_eq!((tokens[1].start, tokens[1].end), (2, 4));
}

/// The first unmatched character stops the scan with its exact byte offset,
/// and the batch interface exposes no token at all.
#[test]
fn test_fail_fast_with_exact_position() {
    let lexer: Lexer<Tok, Parse> = Lexer::new(
        "123 $ 456",
        vec![(TokenCreator::Parser(Parse::Int), r"\d+", true)],
        vec![(r"\s+", true)],
    )
    .unwrap();

    match lexer.collect() {
        Err(LexError::UnexpectedChar { position, character }) => {
            assert_eq!(position, 4);
            assert_eq!(character, '$');
        },
        other => panic!("expected an unexpected-character error, got {:?}", other),
    }
}

/// A failing field parser surfaces its error with the matched span's start,
/// and the batch stops there even though later input would match cleanly.
#[test]
fn test_field_parser_failure_propagation() {
    let lexer: Lexer<Tok, Parse> = Lexer::new(
        "     abc 123",
        vec![
            (TokenCreator::Parser(Parse::AlwaysFails), r"[a-z]+", true),
            (TokenCreator::Parser(Parse::Int), r"\d+", true),
        ],
        vec![(r"\s+", true)],
    )
    .unwrap();

    match lexer.collect() {
        Err(LexError::TokenParseError { position, error: _ }) => {
            assert_eq!(position, 5);
        },
        other => panic!("expected a field-parser error, got {:?}", other),
    }
}

/// Empty input reports exhaustion at once: no token, no error.
#[test]
fn test_empty_input() {
    let lexer: Lexer<Tok, Parse> = Lexer::new(
        "",
        vec![(TokenCreator::Parser(Parse::Int), r"\d+", true)],
        vec![(r"\s+", true)],
    )
    .unwrap();
    let tokens = lexer.collect().unwrap();
    assert_eq!(tokens.len(), 0);

    let mut lexer: Lexer<Tok, Parse> =
        Lexer::new("", vec![(TokenCreator::Parser(Parse::Int), r"\d+", true)], vec![]).unwrap();
    assert!(lexer.next_token().is_none());
}

/// The pull interface yields the same tokens one at a time.
#[test]
fn test_pull_interface() {
    let mut lexer: Lexer<Tok, Parse> = Lexer::new(
        "1 a",
        vec![
            (TokenCreator::Parser(Parse::Int), r"\d+", true),
            (TokenCreator::Parser(Parse::Letter), r"[a-z]+", true),
        ],
        vec![(r"\s+", true)],
    )
    .unwrap();

    let first = lexer.next_token().unwrap().unwrap();
    assert_eq!(first.kind, Tok::Number(1));
    assert_eq!((first.start, first.end), (0, 1));
    let second = lexer.next_token().unwrap().unwrap();
    assert_eq!(second.kind, Tok::Letter("a".to_string()));
    assert_eq!((second.start, second.end), (2, 3));
    assert!(lexer.next_token().is_none());
}

/// A rule whose `Skip` creator wins consumes its match and emits nothing,
/// exactly like a global skip pattern.
#[test]
fn test_skip_creator_rule() {
    let lexer: Lexer<Tok, Parse> = Lexer::new(
        "1#2",
        vec![
            (TokenCreator::Parser(Parse::Int), r"\d+", true),
            (TokenCreator::Skip, "#", false),
        ],
        vec![],
    )
    .unwrap();
    let tokens = lexer.collect().unwrap();

    assert_eq!(tokens.len(), 2);
    assert_eq!(tokens[0].kind, Tok::Number(1));
    assert_eq!(tokens[1].kind, Tok::Number(2));
    assert_eq!((tokens[1].start, tokens[1].end), (2, 3));
}

/// A zero-length match never wins: the engine passes over it, so an empty
/// pattern cannot stall the scan.
#[test]
fn test_zero_length_match_is_passed_over() {
    let lexer: Lexer<Tok, NoParser> = Lexer::new(
        "b",
        vec![
            (TokenCreator::Unit(Tok::Unit), "", false),
            (TokenCreator::Unit(Tok::Number(2)), "b", false),
        ],
        vec![(r"x?", true)],
    )
    .unwrap();
    let tokens = lexer.collect().unwrap();

    assert_eq!(tokens.len(), 1);
    assert_eq!(tokens[0].kind, Tok::Number(2));
}

/// Construction fails with the offending pattern exactly when a
/// regular-expression pattern does not compile, and a literal never fails.
#[test]
fn test_invalid_pattern_is_a_build_failure() {
    let bad: Result<Lexer<Tok, NoParser>, LexError> = Lexer::new(
        "x",
        vec![
            (TokenCreator::Unit(Tok::Unit), "(", false),
            (TokenCreator::Unit(Tok::Unit), "(", true),
        ],
        vec![],
    );
    match bad {
        Err(LexError::InvalidRegex { pattern, error: _ }) => assert_eq!(pattern, "("),
        Err(other) => panic!("expected an invalid-pattern error, got {:?}", other),
        Ok(_) => panic!("expected an invalid-pattern error, got a lexer"),
    }

    let bad_skip: Result<Lexer<Tok, NoParser>, LexError> =
        Lexer::new("x", vec![(TokenCreator::Unit(Tok::Unit), "x", false)], vec![("[", true)]);
    assert!(matches!(bad_skip, Err(LexError::InvalidRegex { .. })));
}
