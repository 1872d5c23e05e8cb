use sea_lex::error::LexError;
use sea_lex::lexer::Lexer;
use sea_lex::token_creator::TokenCreator;
use sea_lex::token_parser::TokenParser;

#[derive(Debug, Clone, PartialEq, Eq)]
enum PatternTestToken {
    LiteralBackslashD,
    Plus,
    LeftParen,
    RightParen,
    Asterisk,
    Dot,
    LeftBracket,
    RightBracket,
    Number(i64),
    Word(String),
    Identifier(String),
}

enum PatternParser {
    Int,
    Word,
    Ident,
}

impl TokenParser<PatternTestToken> for PatternParser {
    fn parse(&self, input: &str, position: usize) -> Result<PatternTestToken, LexError> {
        match self {
            PatternParser::Int => match input.parse::<i64>() {
                Ok(n) => Ok(PatternTestToken::Number(n)),
                Err(e) => Err(LexError::TokenParseError { position, error: e.to_string() }),
            },
            PatternParser::Word => Ok(PatternTestToken::Word(input.to_string())),
            PatternParser::Ident => Ok(PatternTestToken::Identifier(input.to_string())),
        }
    }
}

fn pattern_lexer(input: &str) -> Lexer<PatternTestToken, PatternParser> {
    Lexer::new(
        input,
        vec![
            (TokenCreator::Unit(PatternTestToken::LiteralBackslashD), "\\d", false),
            (TokenCreator::Unit(PatternTestToken::Plus), "+", false),
            (TokenCreator::Unit(PatternTestToken::LeftParen), "(", false),
            (TokenCreator::Unit(PatternTestToken::RightParen), ")", false),
            (TokenCreator::Unit(PatternTestToken::Asterisk), "*", false),
            (TokenCreator::Unit(PatternTestToken::Dot), ".", false),
            (TokenCreator::Unit(PatternTestToken::LeftBracket), "[", false),
            (TokenCreator::Unit(PatternTestToken::RightBracket), "]", false),
            (TokenCreator::Parser(PatternParser::Int), r"\d+", true),
            (TokenCreator::Parser(PatternParser::Word), r"[a-zA-Z]+", true),
            (TokenCreator::Parser(PatternParser::Ident), r"\w+", true),
        ],
        vec![(r"\s+", true)],
    )
    .unwrap()
}

#[test]
fn test_regex_digit_pattern() {
    let tokens = pattern_lexer("123 456 7").collect().unwrap();

    assert_eq!(tokens.len(), 3);
    assert_eq!(tokens[0].kind, PatternTestToken::Number(123));
    assert_eq!(tokens[1].kind, PatternTestToken::Number(456));
    assert_eq!(tokens[2].kind, PatternTestToken::Number(7));
}

#[test]
fn test_literal_backslash_d() {
    let input = "\\d";
    let tokens = pattern_lexer(input).collect().unwrap();

    assert_eq!(tokens.len(), 1);
    assert_eq!(tokens[0].kind, PatternTestToken::LiteralBackslashD);
    assert_eq!(tokens[0].text, "\\d");
}

#[test]
fn test_regex_vs_literal_distinction() {
    let tokens = pattern_lexer("123").collect().unwrap();

    assert_eq!(tokens.len(), 1);
    assert_eq!(tokens[0].kind, PatternTestToken::Number(123));
}

#[test]
fn test_literal_plus_vs_regex_meaning() {
    let tokens = pattern_lexer("+ ++ +++").collect().unwrap();

    assert_eq!(tokens.len(), 6);
    for token in &tokens {
        assert_eq!(token.kind, PatternTestToken::Plus);
        assert_eq!(token.text, "+");
    }
}

#[test]
fn test_literal_dot_vs_regex_meaning() {
    let tokens = pattern_lexer(". a b").collect().unwrap();

    assert_eq!(tokens.len(), 3);
    assert_eq!(tokens[0].kind, PatternTestToken::Dot);
    assert_eq!(tokens[0].text, ".");
    assert_eq!(tokens[1].kind, PatternTestToken::Word("a".to_string()));
    assert_eq!(tokens[2].kind, PatternTestToken::Word("b".to_string()));
}

#[test]
fn test_literal_brackets_vs_regex_meaning() {
    let tokens = pattern_lexer("[ ] [abc]").collect().unwrap();

    assert_eq!(tokens.len(), 5);
    assert_eq!(tokens[0].kind, PatternTestToken::LeftBracket);
    assert_eq!(tokens[0].text, "[");
    assert_eq!(tokens[1].kind, PatternTestToken::RightBracket);
    assert_eq!(tokens[1].text, "]");
    assert_eq!(tokens[2].kind, PatternTestToken::LeftBracket);
    assert_eq!(tokens[3].kind, PatternTestToken::Word("abc".to_string()));
    assert_eq!(tokens[4].kind, PatternTestToken::RightBracket);
}

#[test]
fn test_literal_asterisk_vs_regex_meaning() {
    let tokens = pattern_lexer("* ** ***").collect().unwrap();

    assert_eq!(tokens.len(), 6);
    for token in &tokens {
        assert_eq!(token.kind, PatternTestToken::Asterisk);
        assert_eq!(token.text, "*");
    }
}

#[test]
fn test_regex_character_classes() {
    let tokens = pattern_lexer("hello WORLD test123").collect().unwrap();

    assert_eq!(tokens.len(), 4);
    assert_eq!(tokens[0].kind, PatternTestToken::Word("hello".to_string()));
    assert_eq!(tokens[1].kind, PatternTestToken::Word("WORLD".to_string()));
    assert_eq!(tokens[2].kind, PatternTestToken::Word("test".to_string()));
    assert_eq!(tokens[3].kind, PatternTestToken::Number(123));
}

#[test]
fn test_complex_literal_vs_regex() {
    let tokens = pattern_lexer("42 + \\d * [test]").collect().unwrap();

    assert_eq!(tokens.len(), 7);
    assert_eq!(tokens[0].kind, PatternTestToken::Number(42));
    assert_eq!(tokens[1].kind, PatternTestToken::Plus);
    assert_eq!(tokens[2].kind, PatternTestToken::LiteralBackslashD);
    assert_eq!(tokens[3].kind, PatternTestToken::Asterisk);
    assert_eq!(tokens[4].kind, PatternTestToken::LeftBracket);
    assert_eq!(tokens[5].kind, PatternTestToken::Word("test".to_string()));
    assert_eq!(tokens[6].kind, PatternTestToken::RightBracket);
}
