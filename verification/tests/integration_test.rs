use sea_lex::error::LexError;
use sea_lex::lexer::Lexer;
use sea_lex::token_creator::TokenCreator;
use sea_lex::token_parser::TokenParser;

#[derive(Debug, Clone, PartialEq, Eq)]
enum MathToken {
    Number(i64),
    Plus,
    Minus,
    Multiply,
    Divide,
    LeftParen,
    RightParen,
}

struct ParseInt;

impl TokenParser<MathToken> for ParseInt {
    fn parse(&self, input: &str, position: usize) -> Result<MathToken, LexError> {
        match input.parse::<i64>() {
            Ok(n) => Ok(MathToken::Number(n)),
            Err(e) => Err(LexError::TokenParseError { position, error: e.to_string() }),
        }
    }
}

fn math_lexer(input: &str) -> Lexer<MathToken, ParseInt> {
    Lexer::new(
        input,
        vec![
            (TokenCreator::Parser(ParseInt), r"\d+", true),
            (TokenCreator::Unit(MathToken::Plus), "+", false),
            (TokenCreator::Unit(MathToken::Minus), "-", false),
            (TokenCreator::Unit(MathToken::Multiply), "*", false),
            (TokenCreator::Unit(MathToken::Divide), "/", false),
            (TokenCreator::Unit(MathToken::LeftParen), "(", false),
            (TokenCreator::Unit(MathToken::RightParen), ")", false),
        ],
        vec![(r"\s+", true)],
    )
    .unwrap()
}

#[test]
fn test_math_lexer() {
    let lexer = math_lexer("12 + 34 * (56 - 78)");

    let tokens = lexer.collect().unwrap();

    assert_eq!(tokens.len(), 9);
    assert_eq!(tokens[0].kind, MathToken::Number(12));
    assert_eq!(tokens[1].kind, MathToken::Plus);
    assert_eq!(tokens[2].kind, MathToken::Number(34));
    assert_eq!(tokens[3].kind, MathToken::Multiply);
    assert_eq!(tokens[4].kind, MathToken::LeftParen);
    assert_eq!(tokens[5].kind, MathToken::Number(56));
    assert_eq!(tokens[6].kind, MathToken::Minus);
    assert_eq!(tokens[7].kind, MathToken::Number(78));
    assert_eq!(tokens[8].kind, MathToken::RightParen);
}

#[test]
fn test_token_positions() {
    let lexer = math_lexer("12+34");

    let tokens = lexer.collect().unwrap();

    assert_eq!(tokens[0].start, 0);
    assert_eq!(tokens[0].end, 2);
    assert_eq!(tokens[0].text, "12");

    assert_eq!(tokens[1].start, 2);
    assert_eq!(tokens[1].end, 3);
    assert_eq!(tokens[1].text, "+");

    assert_eq!(tokens[2].start, 3);
    assert_eq!(tokens[2].end, 5);
    assert_eq!(tokens[2].text, "34");
}
