use sea_lex::error::LexError;
use sea_lex::lexer::Lexer;
use sea_lex::token_creator::TokenCreator;
use sea_lex::token_parser::TokenParser;

#[derive(Debug, Clone, PartialEq, Eq)]
enum KeyDistinctionToken {
    RegexDigits(i64),
    RegexLetters(String),
    LiteralBackslashD,
    LiteralPlus,
    LiteralDot,
    LiteralAsterisk,
}

enum KeyParser {
    Int,
    Letters,
}

impl TokenParser<KeyDistinctionToken> for KeyParser {
    fn parse(&self, input: &str, position: usize) -> Result<KeyDistinctionToken, LexError> {
        match self {
            KeyParser::Int => match input.parse::<i64>() {
                Ok(n) => Ok(KeyDistinctionToken::RegexDigits(n)),
                Err(e) => Err(LexError::TokenParseError { position, error: e.to_string() }),
            },
            KeyParser::Letters => Ok(KeyDistinctionToken::RegexLetters(input.to_string())),
        }
    }
}

fn key_lexer(input: &str) -> Lexer<KeyDistinctionToken, KeyParser> {
    Lexer::new(
        input,
        vec![
            (TokenCreator::Parser(KeyParser::Int), r"\d+", true),
            (TokenCreator::Parser(KeyParser::Letters), r"[a-zA-Z]+", true),
            (TokenCreator::Unit(KeyDistinctionToken::LiteralBackslashD), "\\d", false),
            (TokenCreator::Unit(KeyDistinctionToken::LiteralPlus), "+", false),
            (TokenCreator::Unit(KeyDistinctionToken::LiteralDot), ".", false),
            (TokenCreator::Unit(KeyDistinctionToken::LiteralAsterisk), "*", false),
        ],
        vec![(r"\s+", true)],
    )
    .unwrap()
}

#[test]
fn test_key_regex_vs_literal_distinction() {
    let tokens1 = key_lexer("123").collect().unwrap();
    assert_eq!(tokens1.len(), 1);
    assert_eq!(tokens1[0].kind, KeyDistinctionToken::RegexDigits(123));

    let tokens2 = key_lexer("\\d").collect().unwrap();
    assert_eq!(tokens2.len(), 1);
    assert_eq!(tokens2[0].kind, KeyDistinctionToken::LiteralBackslashD);
    assert_eq!(tokens2[0].text, "\\d");

    let tokens3 = key_lexer("++").collect().unwrap();
    assert_eq!(tokens3.len(), 2);
    assert_eq!(tokens3[0].kind, KeyDistinctionToken::LiteralPlus);
    assert_eq!(tokens3[1].kind, KeyDistinctionToken::LiteralPlus);

    let tokens4 = key_lexer(". a").collect().unwrap();
    assert_eq!(tokens4.len(), 2);
    assert_eq!(tokens4[0].kind, KeyDistinctionToken::LiteralDot);
    assert_eq!(tokens4[0].text, ".");
    assert_eq!(tokens4[1].kind, KeyDistinctionToken::RegexLetters("a".to_string()));

    let tokens5 = key_lexer("**").collect().unwrap();
    assert_eq!(tokens5.len(), 2);
    assert_eq!(tokens5[0].kind, KeyDistinctionToken::LiteralAsterisk);
    assert_eq!(tokens5[1].kind, KeyDistinctionToken::LiteralAsterisk);
}

#[test]
fn test_complex_pattern_combinations() {
    let input = "hello 123 \\d + . * world";
    let tokens = key_lexer(input).collect().unwrap();

    assert_eq!(tokens.len(), 7);
    assert_eq!(tokens[0].kind, KeyDistinctionToken::RegexLetters("hello".to_string()));
    assert_eq!(tokens[1].kind, KeyDistinctionToken::RegexDigits(123));
    assert_eq!(tokens[2].kind, KeyDistinctionToken::LiteralBackslashD);
    assert_eq!(tokens[3].kind, KeyDistinctionToken::LiteralPlus);
    assert_eq!(tokens[4].kind, KeyDistinctionToken::LiteralDot);
    assert_eq!(tokens[5].kind, KeyDistinctionToken::LiteralAsterisk);
    assert_eq!(tokens[6].kind, KeyDistinctionToken::RegexLetters("world".to_string()));
}

#[derive(Debug, Clone, PartialEq, Eq)]
enum SkipTestToken {
    Word(String),
}

struct WordParser;

impl TokenParser<SkipTestToken> for WordParser {
    fn parse(&self, input: &str, _position: usize) -> Result<SkipTestToken, LexError> {
        Ok(SkipTestToken::Word(input.to_string()))
    }
}

#[test]
fn test_skip_pattern_distinction() {
    let input = "hello//world   test";
    let lexer = Lexer::new(
        input,
        vec![(TokenCreator::Parser(WordParser), r"\w+", true)],
        vec![(r"\s+", true), ("//", false)],
    )
    .unwrap();
    let tokens = lexer.collect().unwrap();

    assert_eq!(tokens.len(), 3);
    assert_eq!(tokens[0].kind, SkipTestToken::Word("hello".to_string()));
    assert_eq!(tokens[1].kind, SkipTestToken::Word("world".to_string()));
    assert_eq!(tokens[2].kind, SkipTestToken::Word("test".to_string()));
}
