use lambda_calc::lexer::{LexError, Lexer, Point, Position, Token};
use lambda_calc::parser::{is_well_formed, Expression, ParseError, Parser};

fn lex(input: &str) -> Vec<Result<Token, LexError>> {
    let chars: Vec<char> = input.chars().collect();
    let mut lexer = Lexer::new(Vec::new());
    lexer.run(chars);
    lexer.token_sink
}

fn parse(input: &str) -> Result<Expression, ParseError> {
    let tokens = lex(input);
    let mut parser = Parser::new();
    parser.run(tokens)
}

fn lex_parse_and_assert(input: &str, expected: Expression) {
    assert_eq!(parse(input).unwrap(), expected);
}

fn lex_and_parse_only(input: &str) {
    parse(input).unwrap();
}

fn var(name: &str) -> Expression {
    Expression::Variable(name.into())
}

fn lam(param: &str, body: Expression) -> Expression {
    Expression::Lambda(param.into(), Box::new(body))
}

#[test]
fn nested_lambda() {
    let expected = lam(
        "x",
        lam(
            "y",
            Expression::Application(vec![var("x"), var("y"), var("z")]),
        ),
    );
    lex_parse_and_assert("\u{3bb}x y.x y z", expected);
}

#[test]
fn single_lambda_expression() {
    let expected = lam("xy", var("xyz"));
    lex_parse_and_assert("\u{3bb}xy.xyz", expected);
}

#[test]
#[should_panic]
fn try_to_parse_unicode_lambda() {
    lex_and_parse_only("\u{3bb}");
}

#[test]
#[should_panic]
fn try_to_parse_non_unicode_lambda() {
    lex_and_parse_only("\\");
}

#[test]
#[should_panic]
fn try_to_parse_dot() {
    lex_and_parse_only(".");
}

#[test]
#[should_panic]
fn try_to_parse_left_parenthesis() {
    lex_and_parse_only("(");
}

#[test]
#[should_panic]
fn try_to_parse_right_parenthesis() {
    lex_and_parse_only(")");
}

#[test]
fn parse_x_variable() {
    lex_parse_and_assert("x", var("x"));
}

#[test]
fn parse_x0_variable() {
    lex_parse_and_assert("x0", var("x0"));
}

#[test]
fn parse_x1_variable() {
    lex_parse_and_assert("x1", var("x1"));
}

#[test]
fn parse_x2_in_parenthesis() {
    lex_parse_and_assert("(((((x2)))))", var("x2"));
}

#[test]
fn parse_lambda_x_dot_m_in_parenthesis() {
    lex_parse_and_assert("(\u{3bb}x.M)", lam("x", var("M")));
}

#[test]
fn parse_m_n_application_in_parenthesis() {
    let expected = Expression::Application(vec![var("M"), var("N")]);
    lex_parse_and_assert("(M N)", expected);
}

#[test]
fn parse_mn_variable_in_parenthesis() {
    lex_parse_and_assert("(MN)", var("MN"));
}

#[test]
fn parse_lamda_x_dot_x() {
    lex_parse_and_assert("\u{3bb}x.x", lam("x", var("x")));
}

#[test]
#[should_panic]
fn multiline_expression_with_the_wrong_expected_tree() {
    let expected = Expression::Application(vec![
        lam(
            "x",
            lam("y", Expression::Application(vec![var("x"), var("y")])),
        ),
        var("z"),
    ]);
    lex_parse_and_assert(
        "\n\u{3bb}x.(\n    \u{3bb}y.\n        x\n        y\n)z\n",
        expected,
    );
}

#[test]
fn parse_multiline_expression() {
    let expected = lam(
        "x",
        Expression::Application(vec![
            lam("y", Expression::Application(vec![var("x"), var("y")])),
            var("z"),
        ]),
    );
    lex_parse_and_assert(
        "\n\u{3bb}x.(\n    \u{3bb}y.\n        x\n        y\n)z\n",
        expected,
    );
}

#[test]
fn parse_unmatched_open_bracket_is_fatal() {
    assert_eq!(parse("(x"), Err(ParseError::MissingClosingBracket));
}

#[test]
fn parse_unexpected_closing_bracket_is_fatal() {
    assert_eq!(parse(")"), Err(ParseError::UnexpectedClosingBracket));
}

#[test]
fn parse_dot_without_lambda_is_fatal() {
    assert_eq!(parse("."), Err(ParseError::DotWithoutLambda));
}

#[test]
fn parse_lambda_without_identifier_is_fatal() {
    assert_eq!(parse("\u{3bb}."), Err(ParseError::ExpectedIdentifierAfterLambda));
}

#[test]
fn parse_lambda_without_dot_is_fatal() {
    assert_eq!(parse("\u{3bb}x("), Err(ParseError::ExpectedDotOrIdentifier));
}

#[test]
fn parse_empty_parentheses_is_fatal() {
    assert_eq!(parse("()"), Err(ParseError::EmptyParenthesizedExpression));
}

#[test]
fn parse_empty_input_is_fatal() {
    assert_eq!(parse(""), Err(ParseError::EmptyParenthesizedExpression));
}

#[test]
fn parse_open_binder_at_end_of_input_is_fatal() {
    assert_eq!(parse("\u{3bb}x."), Err(ParseError::EmptyParenthesizedExpression));
}

#[test]
fn parse_aborts_on_lexing_errors_and_reports_them_all() {
    let first = LexError::InvalidCharacterError(
        '!',
        Position::new(Point::new(0, 0), Point::new(0, 0)),
    );
    let second = LexError::InvalidCharacterError(
        '?',
        Position::new(Point::new(0, 2), Point::new(0, 2)),
    );
    assert_eq!(
        parse("! ?"),
        Err(ParseError::LexingFailed(vec![first, second]))
    );
}

#[test]
fn well_formedness_check_rejects_small_applications() {
    assert!(is_well_formed(&parse("\u{3bb}x.x y z").unwrap()));
    let singleton = Expression::Application(vec![var("x")]);
    assert!(!is_well_formed(&singleton));
    let nested = lam("x", Expression::Application(vec![]));
    assert!(!is_well_formed(&nested));
}

#[test]
fn parse_application_never_has_fewer_than_two_elements() {
    match parse("x y").unwrap() {
        Expression::Application(v) => assert_eq!(v.len(), 2),
        other => panic!("expected an application, found {:?}", other),
    }
    assert_eq!(parse("(x)").unwrap(), var("x"));
}
