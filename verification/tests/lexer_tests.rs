use lambda_calc::common::Direction;
use lambda_calc::lexer::{LexError, Lexer, Point, Position, Token, TokenType};

fn lex(input: &str) -> Vec<Result<Token, LexError>> {
    let chars: Vec<char> = input.chars().collect();
    let mut lexer = Lexer::new(Vec::new());
    lexer.run(chars);
    lexer.token_sink
}

fn ok(token_type: TokenType, from: (usize, usize), to: (usize, usize)) -> Result<Token, LexError> {
    Ok(Token::new(
        token_type,
        Position::new(Point::new(from.0, from.1), Point::new(to.0, to.1)),
    ))
}

fn lex_and_assert(input: &str, expected: &Vec<Result<Token, LexError>>) {
    assert_eq!(&lex(input), expected);
}

#[test]
fn multi_character_identifier_test() {
    let expected = vec![
        ok(TokenType::Lambda, (0, 0), (0, 0)),
        ok(TokenType::Identifier("xy".into()), (0, 1), (0, 2)),
    ];
    let produced = lex("\u{3bb}xy.xyz");
    assert_eq!(&produced[..2], &expected[..]);
}

#[test]
fn lex_unicode_lambda() {
    let expected = vec![ok(TokenType::Lambda, (0, 0), (0, 0))];
    lex_and_assert("\u{3bb}", &expected);
}

#[test]
fn lex_non_unicode_lambda() {
    let expected = vec![ok(TokenType::Lambda, (0, 0), (0, 0))];
    lex_and_assert("\\", &expected);
}

#[test]
fn lex_dot() {
    let expected = vec![ok(TokenType::Dot, (0, 0), (0, 0))];
    lex_and_assert(".", &expected)
}

#[test]
fn lex_left_parenthesis() {
    let expected = vec![ok(TokenType::Bracket(Direction::Left), (0, 0), (0, 0))];
    lex_and_assert("(", &expected)
}

#[test]
fn lex_right_parenthesis() {
    let expected = vec![ok(TokenType::Bracket(Direction::Right), (0, 0), (0, 0))];
    lex_and_assert(")", &expected)
}

#[test]
fn lex_x_variable() {
    let expected = vec![ok(TokenType::Identifier("x".into()), (0, 0), (0, 0))];
    lex_and_assert("x", &expected)
}

#[test]
fn lex_x0_variable() {
    let expected = vec![ok(TokenType::Identifier("x0".into()), (0, 0), (0, 1))];
    lex_and_assert("x0", &expected)
}

#[test]
fn lex_x1_variable() {
    let expected = vec![ok(TokenType::Identifier("x1".into()), (0, 0), (0, 1))];
    lex_and_assert("x1", &expected)
}

#[test]
fn lex_x2_variable() {
    let expected = vec![ok(TokenType::Identifier("x2".into()), (0, 0), (0, 1))];
    lex_and_assert("x2", &expected)
}

#[test]
fn lex_lambda_x_dot_m_in_parenthesis() {
    let expected = vec![
        ok(TokenType::Bracket(Direction::Left), (0, 0), (0, 0)),
        ok(TokenType::Lambda, (0, 1), (0, 1)),
        ok(TokenType::Identifier("x".into()), (0, 2), (0, 2)),
        ok(TokenType::Dot, (0, 3), (0, 3)),
        ok(TokenType::Identifier("M".into()), (0, 4), (0, 4)),
        ok(TokenType::Bracket(Direction::Right), (0, 5), (0, 5)),
    ];
    lex_and_assert("(\u{3bb}x.M)", &expected);
    lex_and_assert("(\\x.M)", &expected);
}

#[test]
fn lex_m_n_application_in_parenthesis() {
    let expected = vec![
        ok(TokenType::Bracket(Direction::Left), (0, 0), (0, 0)),
        ok(TokenType::Identifier("M".into()), (0, 1), (0, 1)),
        ok(TokenType::Identifier("N".into()), (0, 3), (0, 3)),
        ok(TokenType::Bracket(Direction::Right), (0, 4), (0, 4)),
    ];
    lex_and_assert("(M N)", &expected)
}

#[test]
fn lex_mn_variable_in_parenthesis() {
    let expected = vec![
        ok(TokenType::Bracket(Direction::Left), (0, 0), (0, 0)),
        ok(TokenType::Identifier("MN".into()), (0, 1), (0, 2)),
        ok(TokenType::Bracket(Direction::Right), (0, 3), (0, 3)),
    ];
    lex_and_assert("(MN)", &expected)
}

#[test]
fn lex_lambda_x_dot_x() {
    let expected = vec![
        ok(TokenType::Lambda, (0, 0), (0, 0)),
        ok(TokenType::Identifier("x".into()), (0, 1), (0, 1)),
        ok(TokenType::Dot, (0, 2), (0, 2)),
        ok(TokenType::Identifier("x".into()), (0, 3), (0, 3)),
    ];
    lex_and_assert("\u{3bb}x.x", &expected);
    lex_and_assert("\\x.x", &expected);
}

#[test]
fn lex_multiline_expression() {
    let expected = vec![
        ok(TokenType::Lambda, (1, 0), (1, 0)),
        ok(TokenType::Identifier("x".into()), (1, 1), (1, 1)),
        ok(TokenType::Dot, (1, 2), (1, 2)),
        ok(TokenType::Bracket(Direction::Left), (1, 3), (1, 3)),
        ok(TokenType::Lambda, (2, 4), (2, 4)),
        ok(TokenType::Identifier("y".into()), (2, 5), (2, 5)),
        ok(TokenType::Dot, (2, 6), (2, 6)),
        ok(TokenType::Identifier("x".into()), (3, 8), (3, 8)),
        ok(TokenType::Identifier("y".into()), (4, 8), (4, 8)),
        ok(TokenType::Bracket(Direction::Right), (5, 0), (5, 0)),
        ok(TokenType::Identifier("z".into()), (5, 1), (5, 1)),
    ];
    lex_and_assert(
        "\n\u{3bb}x.(\n    \u{3bb}y.\n        x\n        y\n)z\n",
        &expected,
    );
}

#[test]
fn lex_invalid_character() {
    let expected = vec![Err(LexError::InvalidCharacterError(
        '!',
        Position::new(Point::new(0, 0), Point::new(0, 0)),
    ))];
    lex_and_assert("!", &expected);
}

#[test]
fn lex_invalid_character_keeps_stream_order() {
    let expected = vec![
        Err(LexError::InvalidCharacterError(
            '!',
            Position::new(Point::new(0, 0), Point::new(0, 0)),
        )),
        ok(TokenType::Identifier("x".into()), (0, 1), (0, 1)),
    ];
    lex_and_assert("!x", &expected);
}

#[test]
fn lex_identifier_error() {
    let expected = vec![
        Err(LexError::IdentifierError(
            "Invalid character ! found in an identifier".to_string(),
            Position::new(Point::new(0, 0), Point::new(0, 1)),
        )),
        ok(TokenType::Identifier("x".into()), (0, 0), (0, 1)),
    ];
    lex_and_assert("x!", &expected);
}

#[test]
fn lex_whitespace_only() {
    lex_and_assert(" \t\n  ", &Vec::new());
}
