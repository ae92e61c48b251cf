use lambda_calc::interpreter::{
    alpha_conversion, beta_reduce, clone_expr, identifier_exists, rename, substitute,
    uses_no_generated_names, NameGen,
};
use lambda_calc::lexer::{LexError, Lexer, Token};
use lambda_calc::parser::{Expression, ParseError, Parser};

fn parse(input: &str) -> Result<Expression, ParseError> {
    let chars: Vec<char> = input.chars().collect();
    let mut lexer = Lexer::new(Vec::new());
    lexer.run(chars);
    let tokens: Vec<Result<Token, LexError>> = lexer.token_sink;
    let mut parser = Parser::new();
    parser.run(tokens)
}

fn var(name: &str) -> Expression {
    Expression::Variable(name.into())
}

fn lam(param: &str, body: Expression) -> Expression {
    Expression::Lambda(param.into(), Box::new(body))
}

#[test]
fn name_gen_counts_up() {
    let mut gen = NameGen::new();
    assert_eq!(gen.next(), "#0");
    assert_eq!(gen.next(), "#1");
    assert_eq!(gen.next(), "#2");
}

#[test]
fn name_gen_multi_digit() {
    let mut gen = NameGen::new();
    for _ in 0..10 {
        gen.next();
    }
    assert_eq!(gen.next(), "#10");
    gen.cur = 205;
    assert_eq!(gen.next(), "#205");
}

#[test]
fn rename_variable() {
    assert_eq!(rename(var("x"), "x".into(), "y".into()), var("y"));
    assert_eq!(rename(var("z"), "x".into(), "y".into()), var("z"));
}

#[test]
fn rename_respects_shadowing() {
    // the binder rebinding the name halts the rename for that subtree
    let shadowed = lam("x", var("x"));
    assert_eq!(
        rename(shadowed, "x".into(), "y".into()),
        lam("x", var("x"))
    );
    // a different binder is kept; only occurrences are rewritten
    let open = lam("z", var("x"));
    assert_eq!(rename(open, "x".into(), "y".into()), lam("z", var("y")));
}

#[test]
fn alpha_conversion_renames_binder_and_occurrences() {
    let converted = alpha_conversion(lam("x", var("x")), "y".into());
    assert_eq!(converted, lam("y", var("y")));
}

#[test]
fn substitute_variable_gives_the_term() {
    // substituting any term for the variable itself yields that term
    let mut gen = NameGen::new();
    let value = lam("a", Expression::Application(vec![var("a"), var("b")]));
    let result = substitute(var("x"), "x".into(), clone_expr(&value), &mut gen);
    assert_eq!(result, value);
    let untouched = substitute(var("y"), "x".into(), value, &mut gen);
    assert_eq!(untouched, var("y"));
}

#[test]
fn substitute_shadowed_binder_blocks() {
    // a binder equal to the substituted name shadows it: nothing changes
    let mut gen = NameGen::new();
    let shadowed = lam("x", var("x"));
    let result = substitute(shadowed, "x".into(), var("y"), &mut gen);
    assert_eq!(result, lam("x", var("x")));
    assert_eq!(gen.cur, 0);
}

#[test]
fn substitute_under_binder_always_alpha_converts() {
    let mut gen = NameGen::new();
    let result = substitute(lam("y", var("x")), "x".into(), var("z"), &mut gen);
    assert_eq!(result, lam("#0", var("z")));
    assert_eq!(gen.cur, 1);
}

#[test]
fn substitute_avoids_capture() {
    // substituting y under a binder named y must not capture it
    let mut gen = NameGen::new();
    let result = substitute(lam("y", var("x")), "x".into(), var("y"), &mut gen);
    assert_eq!(result, lam("#0", var("y")));
}

#[test]
fn identifier_exists_finds_binders_and_variables() {
    let e = lam("x", Expression::Application(vec![var("y"), var("z")]));
    assert!(identifier_exists(&e, "x".into()));
    assert!(identifier_exists(&e, "y".into()));
    assert!(identifier_exists(&e, "z".into()));
    assert!(!identifier_exists(&e, "w".into()));
}

#[test]
fn beta_reduce_identity_application() {
    let mut gen = NameGen::new();
    let redex = Expression::Application(vec![lam("x", var("x")), var("y")]);
    let reduced = beta_reduce(redex, &mut gen);
    assert_eq!(reduced, Some(var("y")));
    let again = beta_reduce(var("y"), &mut gen);
    assert_eq!(again, None);
}

#[test]
fn beta_reduce_peels_one_argument_per_step() {
    let mut gen = NameGen::new();
    // (λx.λy.x) a b : the first step substitutes a and keeps b applied
    let term = Expression::Application(vec![lam("x", lam("y", var("x"))), var("a"), var("b")]);
    let step1 = beta_reduce(term, &mut gen).unwrap();
    assert_eq!(
        step1,
        Expression::Application(vec![lam("#0", var("a")), var("b")])
    );
    let step2 = beta_reduce(step1, &mut gen).unwrap();
    assert_eq!(step2, var("a"));
    assert_eq!(beta_reduce(step2, &mut gen), None);
}

#[test]
fn beta_reduce_scans_left_to_right() {
    let mut gen = NameGen::new();
    // a ((λx.x) b) : the head is not a lambda, so the first reducible
    // element is reduced in place
    let term = Expression::Application(vec![
        var("a"),
        Expression::Application(vec![lam("x", var("x")), var("b")]),
    ]);
    let step = beta_reduce(term, &mut gen).unwrap();
    assert_eq!(step, Expression::Application(vec![var("a"), var("b")]));
}

#[test]
fn beta_reduce_normal_form_returns_none() {
    let mut gen = NameGen::new();
    assert_eq!(beta_reduce(var("x"), &mut gen), None);
    assert_eq!(
        beta_reduce(Expression::Application(vec![var("x"), var("y")]), &mut gen),
        None
    );
    assert_eq!(beta_reduce(lam("x", var("x")), &mut gen), None);
    assert_eq!(gen.cur, 0);
}

#[test]
fn reduction_trace_of_parsed_program() {
    let expr = parse("(\u{3bb}x.x)((\u{3bb}y.y) z)").unwrap();
    assert!(uses_no_generated_names(&expr));
    let mut gen = NameGen::new();
    let mut trace = vec![clone_expr(&expr)];
    let mut current = expr;
    loop {
        match beta_reduce(clone_expr(&current), &mut gen) {
            Some(next) => {
                current = next;
                trace.push(clone_expr(&current));
            }
            None => break,
        }
    }
    assert_eq!(trace.len(), 3);
    assert_eq!(trace[2], var("z"));
}

#[test]
fn generated_names_are_outside_the_parsed_alphabet() {
    let expr = parse("\u{3bb}x.x0").unwrap();
    assert!(uses_no_generated_names(&expr));
    assert!(!uses_no_generated_names(&var("#0")));
    assert!(!uses_no_generated_names(&lam("#1", var("x"))));
}

#[test]
fn clone_expr_is_structural() {
    let e = lam("x", Expression::Application(vec![var("x"), var("y")]));
    assert_eq!(clone_expr(&e), e);
}
