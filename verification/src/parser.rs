//! The parser: a token-to-syntax-tree builder driven by a stack of
//! incomplete scopes.
//!
//! The stack always carries a bottommost `Expressions` frame, the top-level
//! scope. A left bracket opens a new `Expressions` frame, a lambda binder an
//! `Incomplete::Lambda` frame; a right bracket or the end of input closes
//! frames back down, collapsing each frame's expression list as it goes. An
//! `Expression::Application` is only ever built from a list of two or more
//! expressions: singleton lists collapse to their element and empty lists are
//! an error.

use vstd::prelude::*;

use crate::common::Direction;
use crate::lexer::{LexError, LexErrorView, Token, TokenType, TokenTypeView};

verus! {

/// A lambda-calculus syntax tree.
#[derive(Debug, PartialEq)]
pub enum Expression {
    Application(Vec<Expression>),
    Lambda(String, Box<Expression>),
    Variable(String),
}

/// The mathematical value of an [`Expression`]: names become character
/// sequences and the application list a sequence of values.
pub enum ExpressionView {
    Application(Seq<ExpressionView>),
    Lambda(Seq<char>, Box<ExpressionView>),
    Variable(Seq<char>),
}

/// The mathematical value of an expression.
pub open spec fn expr_view(e: Expression) -> ExpressionView
    decreases e,
{
    match e {
        Expression::Application(v) => ExpressionView::Application(exprs_view(v@)),
        Expression::Lambda(i, b) => ExpressionView::Lambda(i@, Box::new(expr_view(*b))),
        Expression::Variable(i) => ExpressionView::Variable(i@),
    }
}

/// The mathematical value of each expression in a sequence.
pub open spec fn exprs_view(es: Seq<Expression>) -> Seq<ExpressionView>
    decreases es,
{
    if es.len() == 0 {
        seq![]
    } else {
        seq![expr_view(es[0])] + exprs_view(es.drop_first())
    }
}

pub broadcast proof fn lemma_exprs_view(es: Seq<Expression>)
    ensures
        #[trigger] exprs_view(es).len() == es.len(),
        forall|i: int| 0 <= i < es.len() ==> exprs_view(es)[i] == expr_view(es[i]),
    decreases es.len(),
{
    if es.len() > 0 {
        lemma_exprs_view(es.drop_first());
    }
}

impl View for Expression {
    type V = ExpressionView;

    open spec fn view(&self) -> ExpressionView {
        expr_view(*self)
    }
}

/// The structural invariant of a syntax tree: an application never has fewer
/// than two elements, at any depth.
pub open spec fn well_formed(e: ExpressionView) -> bool
    decreases e,
{
    match e {
        ExpressionView::Application(es) => es.len() >= 2 && (forall|i: int|
            0 <= i < es.len() ==> well_formed(#[trigger] es[i])),
        ExpressionView::Lambda(_, b) => well_formed(*b),
        ExpressionView::Variable(_) => true,
    }
}

/// Why a parse failed. Lexing errors are fatal the first time the parser
/// meets one: the rest of the stream is drained and every lexing error found
/// is reported together.
#[derive(Debug, PartialEq)]
pub enum ParseError {
    UnexpectedClosingBracket,
    MissingClosingBracket,
    DotWithoutLambda,
    ExpectedIdentifierAfterLambda,
    ExpectedDotOrIdentifier,
    EmptyParenthesizedExpression,
    LexingFailed(Vec<LexError>),
}

/// The mathematical value of a [`ParseError`].
pub enum ParseErrorView {
    UnexpectedClosingBracket,
    MissingClosingBracket,
    DotWithoutLambda,
    ExpectedIdentifierAfterLambda,
    ExpectedDotOrIdentifier,
    EmptyParenthesizedExpression,
    LexingFailed(Seq<LexErrorView>),
}

/// The mathematical value of a sequence of lexing errors.
pub open spec fn lex_error_seq_view(s: Seq<LexError>) -> Seq<LexErrorView> {
    s.map_values(|e: LexError| e@)
}

impl View for ParseError {
    type V = ParseErrorView;

    open spec fn view(&self) -> ParseErrorView {
        match self {
            ParseError::UnexpectedClosingBracket => ParseErrorView::UnexpectedClosingBracket,
            ParseError::MissingClosingBracket => ParseErrorView::MissingClosingBracket,
            ParseError::DotWithoutLambda => ParseErrorView::DotWithoutLambda,
            ParseError::ExpectedIdentifierAfterLambda => ParseErrorView::ExpectedIdentifierAfterLambda,
            ParseError::ExpectedDotOrIdentifier => ParseErrorView::ExpectedDotOrIdentifier,
            ParseError::EmptyParenthesizedExpression => ParseErrorView::EmptyParenthesizedExpression,
            ParseError::LexingFailed(v) => ParseErrorView::LexingFailed(lex_error_seq_view(v@)),
        }
    }
}

/// An open scope on the parse stack: a bracket-or-top-level scope in
/// progress, or an open binder awaiting closure.
#[derive(Debug)]
pub enum Incomplete {
    Expressions(Vec<Expression>),
    Lambda(String, Vec<Expression>),
}

/// The mathematical value of an [`Incomplete`] frame.
pub enum IncompleteView {
    Expressions(Seq<ExpressionView>),
    Lambda(Seq<char>, Seq<ExpressionView>),
}

impl View for Incomplete {
    type V = IncompleteView;

    open spec fn view(&self) -> IncompleteView {
        match self {
            Incomplete::Expressions(v) => IncompleteView::Expressions(exprs_view(v@)),
            Incomplete::Lambda(i, v) => IncompleteView::Lambda(i@, exprs_view(v@)),
        }
    }
}

/// The mathematical value of the parse stack, bottom first.
pub open spec fn stack_view(s: Seq<Incomplete>) -> Seq<IncompleteView> {
    s.map_values(|f: Incomplete| f@)
}

pub broadcast proof fn lemma_stack_view_push(s: Seq<Incomplete>, f: Incomplete)
    ensures
        #[trigger] stack_view(s.push(f)) == stack_view(s).push(f@),
{
    assert(stack_view(s.push(f)) =~= stack_view(s).push(f@));
}

pub broadcast proof fn lemma_stack_view_drop_last(s: Seq<Incomplete>)
    requires
        s.len() > 0,
    ensures
        #[trigger] stack_view(s.drop_last()) == stack_view(s).drop_last(),
{
    assert(stack_view(s.drop_last()) =~= stack_view(s).drop_last());
}

/// The mathematical value of the binder name carried into a frame closure.
pub open spec fn binder_view(o: Option<String>) -> Option<Seq<char>> {
    match o {
        Some(s) => Some(s@),
        None => None,
    }
}

/// The parser's three dispatch states.
#[derive(Debug, PartialEq, Eq, Structural, Clone, Copy)]
pub enum ParserState {
    Normal,
    Lambda,
    ExpectDotOrIdentifier,
}

/// Collapse a finished scope's expression list: two or more expressions form
/// an application, a single one stands by itself, none is an error.
pub open spec fn collapse(es: Seq<ExpressionView>) -> Option<ExpressionView> {
    if es.len() > 1 {
        Some(ExpressionView::Application(es))
    } else if es.len() == 1 {
        Some(es[0])
    } else {
        None
    }
}

/// Append an expression into the topmost frame of the stack.
pub open spec fn append_to_top(stack: Seq<IncompleteView>, e: ExpressionView) -> Seq<
    IncompleteView,
> {
    if stack.len() == 0 {
        stack
    } else {
        let updated = match stack.last() {
            IncompleteView::Expressions(v) => IncompleteView::Expressions(v.push(e)),
            IncompleteView::Lambda(i, v) => IncompleteView::Lambda(i, v.push(e)),
        };
        stack.update(stack.len() - 1, updated)
    }
}

/// Close one already-popped frame: collapse its list, wrap it in a binder if
/// one is given, and append the result into the frame below. `stack` is the
/// stack without the closed frame.
pub open spec fn spec_bubble(
    stack: Seq<IncompleteView>,
    binder: Option<Seq<char>>,
    es: Seq<ExpressionView>,
) -> (Result<(), ParseErrorView>, Seq<IncompleteView>) {
    match collapse(es) {
        None => (Err(ParseErrorView::EmptyParenthesizedExpression), stack),
        Some(inner) => {
            let e = match binder {
                Some(i) => ExpressionView::Lambda(i, Box::new(inner)),
                None => inner,
            };
            (Ok(()), append_to_top(stack, e))
        },
    }
}

/// A right bracket: pop and close frames until (and including) the nearest
/// enclosing `Expressions` frame. With only the sentinel left, the bracket
/// is unmatched.
pub open spec fn close_on_right(stack: Seq<IncompleteView>) -> (
    Result<(), ParseErrorView>,
    Seq<IncompleteView>,
)
    decreases stack.len(),
{
    if stack.len() > 1 {
        let rest = stack.drop_last();
        match stack.last() {
            IncompleteView::Expressions(v) => spec_bubble(rest, None, v),
            IncompleteView::Lambda(i, v) => {
                let (r, closed) = spec_bubble(rest, Some(i), v);
                match r {
                    Ok(_) => close_on_right(closed),
                    Err(e) => (Err(e), closed),
                }
            },
        }
    } else {
        (Err(ParseErrorView::UnexpectedClosingBracket), stack)
    }
}

/// One `Normal`-state transition on a token.
pub open spec fn spec_normal(stack: Seq<IncompleteView>, t: TokenTypeView) -> (
    Result<ParserState, ParseErrorView>,
    Seq<IncompleteView>,
) {
    match t {
        TokenTypeView::Bracket(Direction::Left) => (
            Ok(ParserState::Normal),
            stack.push(IncompleteView::Expressions(seq![])),
        ),
        TokenTypeView::Bracket(Direction::Right) => {
            let (r, closed) = close_on_right(stack);
            match r {
                Ok(_) => (Ok(ParserState::Normal), closed),
                Err(e) => (Err(e), closed),
            }
        },
        TokenTypeView::Dot => (Err(ParseErrorView::DotWithoutLambda), stack),
        TokenTypeView::Identifier(s) => (
            Ok(ParserState::Normal),
            append_to_top(stack, ExpressionView::Variable(s)),
        ),
        TokenTypeView::Lambda => (Ok(ParserState::Lambda), stack),
    }
}

/// One `Lambda`-state transition: only an identifier may follow a lambda
/// introducer; it opens a binder frame.
pub open spec fn spec_lambda(stack: Seq<IncompleteView>, t: TokenTypeView) -> (
    Result<ParserState, ParseErrorView>,
    Seq<IncompleteView>,
) {
    match t {
        TokenTypeView::Identifier(s) => (
            Ok(ParserState::ExpectDotOrIdentifier),
            stack.push(IncompleteView::Lambda(s, seq![])),
        ),
        _ => (Err(ParseErrorView::ExpectedIdentifierAfterLambda), stack),
    }
}

/// One `ExpectDotOrIdentifier`-state transition: a further identifier opens
/// another nested binder frame, a dot returns to `Normal`.
pub open spec fn spec_expect_dot_or_identifier(stack: Seq<IncompleteView>, t: TokenTypeView) -> (
    Result<ParserState, ParseErrorView>,
    Seq<IncompleteView>,
) {
    match t {
        TokenTypeView::Dot => (Ok(ParserState::Normal), stack),
        TokenTypeView::Identifier(s) => (
            Ok(ParserState::ExpectDotOrIdentifier),
            stack.push(IncompleteView::Lambda(s, seq![])),
        ),
        _ => (Err(ParseErrorView::ExpectedDotOrIdentifier), stack),
    }
}

/// One transition of the machine, dispatched on the current state.
pub open spec fn spec_step(
    stack: Seq<IncompleteView>,
    state: ParserState,
    t: TokenTypeView,
) -> (Result<ParserState, ParseErrorView>, Seq<IncompleteView>) {
    match state {
        ParserState::Normal => spec_normal(stack, t),
        ParserState::Lambda => spec_lambda(stack, t),
        ParserState::ExpectDotOrIdentifier => spec_expect_dot_or_identifier(stack, t),
    }
}

/// End of input: pop and close the remaining frames. An `Expressions` frame
/// above the sentinel is an unmatched open bracket; the sentinel itself
/// collapses into the final expression.
pub open spec fn close_at_end(stack: Seq<IncompleteView>) -> (
    Result<ExpressionView, ParseErrorView>,
    Seq<IncompleteView>,
)
    decreases stack.len(),
{
    if stack.len() == 1 {
        match stack.last() {
            IncompleteView::Expressions(v) => match collapse(v) {
                Some(e) => (Ok(e), stack.drop_last()),
                None => (Err(ParseErrorView::EmptyParenthesizedExpression), stack.drop_last()),
            },
            IncompleteView::Lambda(_, _) => arbitrary(),
        }
    } else if stack.len() > 1 {
        let rest = stack.drop_last();
        match stack.last() {
            IncompleteView::Lambda(i, v) => {
                let (r, closed) = spec_bubble(rest, Some(i), v);
                match r {
                    Ok(_) => close_at_end(closed),
                    Err(e) => (Err(e), closed),
                }
            },
            IncompleteView::Expressions(_) => (
                Err(ParseErrorView::MissingClosingBracket),
                rest,
            ),
        }
    } else {
        arbitrary()
    }
}

/// Every lexing error in the stream, in order.
pub open spec fn stream_errors(toks: Seq<Result<crate::lexer::TokenView, LexErrorView>>) -> Seq<
    LexErrorView,
>
    decreases toks.len(),
{
    if toks.len() == 0 {
        seq![]
    } else {
        match toks[0] {
            Err(e) => seq![e] + stream_errors(toks.drop_first()),
            Ok(_) => stream_errors(toks.drop_first()),
        }
    }
}

/// A complete parser run over a token-result stream: tokens drive the
/// machine; the first lexing error aborts the run, reporting every lexing
/// error of the stream; end of input closes the remaining frames.
pub open spec fn spec_parse(
    stack: Seq<IncompleteView>,
    state: ParserState,
    toks: Seq<Result<crate::lexer::TokenView, LexErrorView>>,
) -> (Result<ExpressionView, ParseErrorView>, Seq<IncompleteView>)
    decreases toks.len(),
{
    if toks.len() == 0 {
        close_at_end(stack)
    } else {
        match toks[0] {
            Ok(t) => {
                let (r, stack2) = spec_step(stack, state, t.token_type);
                match r {
                    Ok(state2) => spec_parse(stack2, state2, toks.drop_first()),
                    Err(e) => (Err(e), stack2),
                }
            },
            Err(_) => (Err(ParseErrorView::LexingFailed(stream_errors(toks))), stack),
        }
    }
}

pub broadcast proof fn lemma_lex_error_seq_view_push(s: Seq<LexError>, e: LexError)
    ensures
        #[trigger] lex_error_seq_view(s.push(e)) == lex_error_seq_view(s).push(e@),
{
    assert(lex_error_seq_view(s.push(e)) =~= lex_error_seq_view(s).push(e@));
}

pub broadcast proof fn lemma_exprs_view_push(es: Seq<Expression>, e: Expression)
    ensures
        #[trigger] exprs_view(es.push(e)) == exprs_view(es).push(expr_view(e)),
{
    broadcast use lemma_exprs_view;

    assert(exprs_view(es.push(e)) =~= exprs_view(es).push(expr_view(e)));
}

/// The parse stack's standing shape: at least the sentinel, and the
/// bottommost frame a top-level `Expressions` scope.
pub open spec fn stack_ok(stack: Seq<IncompleteView>) -> bool {
    stack.len() >= 1 && stack[0] is Expressions
}

pub proof fn lemma_close_on_right_shape(stack: Seq<IncompleteView>)
    requires
        stack_ok(stack),
    ensures
        stack_ok(close_on_right(stack).1),
    decreases stack.len(),
{
    if stack.len() > 1 {
        match stack.last() {
            IncompleteView::Lambda(i, v) => {
                let (r, closed) = spec_bubble(stack.drop_last(), Some(i), v);
                if r is Ok {
                    lemma_close_on_right_shape(closed);
                }
            },
            IncompleteView::Expressions(_) => {},
        }
    }
}

pub proof fn lemma_step_shape(stack: Seq<IncompleteView>, state: ParserState, t: TokenTypeView)
    requires
        stack_ok(stack),
    ensures
        stack_ok(spec_step(stack, state, t).1),
{
    if state is Normal {
        match t {
            TokenTypeView::Bracket(Direction::Right) => {
                lemma_close_on_right_shape(stack);
            },
            _ => {},
        }
    }
}

/// Whether the expression satisfies the structural invariant: every
/// application in it has at least two elements. True of everything a
/// successful parse returns.
#[verifier::loop_isolation(false)]
pub fn is_well_formed(expr: &Expression) -> (r: bool)
    ensures
        r == well_formed(expr@),
    decreases *expr,
{
    match expr {
        Expression::Variable(_) => true,
        Expression::Lambda(_, b) => is_well_formed(b),
        Expression::Application(v) => {
            let ghost es = exprs_view(v@);
            proof {
                lemma_exprs_view(v@);
            }
            if v.len() < 2 {
                return false;
            }
            let mut k: usize = 0;
            while k < v.len()
                invariant
                    k <= v@.len(),
                    forall|j: int| 0 <= j < k ==> well_formed(#[trigger] es[j]),
                decreases v@.len() - k,
            {
                proof {
                    lemma_exprs_view(v@);
                }
                if !is_well_formed(&v[k]) {
                    proof {
                        assert(es[k as int] == expr_view(v@[k as int]));
                        assert(!well_formed(es[k as int]));
                    }
                    return false;
                }
                k = k + 1;
            }
            true
        },
    }
}

/// Every expression of the sequence satisfies the structural invariant.
pub open spec fn all_well_formed(es: Seq<ExpressionView>) -> bool {
    forall|i: int| 0 <= i < es.len() ==> well_formed(#[trigger] es[i])
}

/// The expression list a frame carries.
pub open spec fn frame_exprs(f: IncompleteView) -> Seq<ExpressionView> {
    match f {
        IncompleteView::Expressions(v) => v,
        IncompleteView::Lambda(_, v) => v,
    }
}

/// Every expression in every frame of the stack satisfies the structural
/// invariant.
pub open spec fn frames_well_formed(stack: Seq<IncompleteView>) -> bool {
    forall|i: int| 0 <= i < stack.len() ==> all_well_formed(frame_exprs(#[trigger] stack[i]))
}

pub proof fn lemma_collapse_wf(es: Seq<ExpressionView>)
    requires
        all_well_formed(es),
    ensures
        collapse(es) matches Some(e) ==> well_formed(e),
{
}

pub proof fn lemma_append_wf(stack: Seq<IncompleteView>, e: ExpressionView)
    requires
        frames_well_formed(stack),
        well_formed(e),
    ensures
        frames_well_formed(append_to_top(stack, e)),
{
    if stack.len() > 0 {
        let updated = append_to_top(stack, e);
        assert forall|i: int| 0 <= i < updated.len() implies all_well_formed(
            frame_exprs(#[trigger] updated[i]),
        ) by {
            if i == stack.len() - 1 {
                let v = frame_exprs(stack[i]);
                let v2 = frame_exprs(updated[i]);
                assert(v2 == v.push(e));
                assert forall|j: int| 0 <= j < v2.len() implies well_formed(#[trigger] v2[j]) by {
                    if j < v.len() {
                        assert(well_formed(v[j]));
                    }
                }
            }
        }
    }
}

pub proof fn lemma_bubble_wf(
    stack: Seq<IncompleteView>,
    binder: Option<Seq<char>>,
    es: Seq<ExpressionView>,
)
    requires
        frames_well_formed(stack),
        all_well_formed(es),
    ensures
        frames_well_formed(spec_bubble(stack, binder, es).1),
{
    lemma_collapse_wf(es);
    match collapse(es) {
        Some(inner) => {
            let e = match binder {
                Some(i) => ExpressionView::Lambda(i, Box::new(inner)),
                None => inner,
            };
            lemma_append_wf(stack, e);
        },
        None => {},
    }
}

pub proof fn lemma_close_on_right_wf(stack: Seq<IncompleteView>)
    requires
        frames_well_formed(stack),
    ensures
        frames_well_formed(close_on_right(stack).1),
    decreases stack.len(),
{
    if stack.len() > 1 {
        let rest = stack.drop_last();
        assert(all_well_formed(frame_exprs(stack.last())));
        match stack.last() {
            IncompleteView::Expressions(v) => {
                lemma_bubble_wf(rest, None, v);
            },
            IncompleteView::Lambda(i, v) => {
                lemma_bubble_wf(rest, Some(i), v);
                let (r, closed) = spec_bubble(rest, Some(i), v);
                if r is Ok {
                    lemma_close_on_right_wf(closed);
                }
            },
        }
    }
}

pub proof fn lemma_step_wf(stack: Seq<IncompleteView>, state: ParserState, t: TokenTypeView)
    requires
        frames_well_formed(stack),
    ensures
        frames_well_formed(spec_step(stack, state, t).1),
{
    let pushed_empty = stack.push(IncompleteView::Expressions(seq![]));
    match state {
        ParserState::Normal => {
            match t {
                TokenTypeView::Bracket(Direction::Left) => {
                    assert(frames_well_formed(pushed_empty));
                },
                TokenTypeView::Bracket(Direction::Right) => {
                    lemma_close_on_right_wf(stack);
                },
                TokenTypeView::Identifier(s) => {
                    lemma_append_wf(stack, ExpressionView::Variable(s));
                },
                _ => {},
            }
        },
        _ => {
            match t {
                TokenTypeView::Identifier(s) => {
                    assert(frames_well_formed(stack.push(IncompleteView::Lambda(s, seq![]))));
                },
                _ => {},
            }
        },
    }
}

pub proof fn lemma_close_at_end_wf(stack: Seq<IncompleteView>)
    requires
        stack_ok(stack),
        frames_well_formed(stack),
    ensures
        close_at_end(stack).0 matches Ok(e) ==> well_formed(e),
    decreases stack.len(),
{
    if stack.len() == 1 {
        match stack.last() {
            IncompleteView::Expressions(v) => {
                lemma_collapse_wf(v);
            },
            IncompleteView::Lambda(_, _) => {},
        }
    } else if stack.len() > 1 {
        let rest = stack.drop_last();
        assert(all_well_formed(frame_exprs(stack.last())));
        match stack.last() {
            IncompleteView::Lambda(i, v) => {
                lemma_bubble_wf(rest, Some(i), v);
                let (r, closed) = spec_bubble(rest, Some(i), v);
                if r is Ok {
                    lemma_close_at_end_wf(closed);
                }
            },
            IncompleteView::Expressions(_) => {},
        }
    }
}

pub proof fn lemma_spec_parse_wf(
    stack: Seq<IncompleteView>,
    state: ParserState,
    toks: Seq<Result<crate::lexer::TokenView, LexErrorView>>,
)
    requires
        stack_ok(stack),
        frames_well_formed(stack),
    ensures
        spec_parse(stack, state, toks).0 matches Ok(e) ==> well_formed(e),
    decreases toks.len(),
{
    if toks.len() == 0 {
        lemma_close_at_end_wf(stack);
    } else {
        match toks[0] {
            Ok(t) => {
                let (r, stack2) = spec_step(stack, state, t.token_type);
                lemma_step_shape(stack, state, t.token_type);
                lemma_step_wf(stack, state, t.token_type);
                match r {
                    Ok(state2) => {
                        lemma_spec_parse_wf(stack2, state2, toks.drop_first());
                    },
                    Err(_) => {},
                }
            },
            Err(_) => {},
        }
    }
}

/// A parser run, from the fresh state, produces an `Application` only when
/// it has two or more elements, at any depth of the tree — never a singleton
/// or an empty one. This holds for every token-result stream, so in
/// particular for the lexer's output on any program.
pub proof fn lemma_parse_result_well_formed(
    toks: Seq<Result<crate::lexer::TokenView, LexErrorView>>,
)
    ensures
        spec_parse(
            seq![IncompleteView::Expressions(seq![])],
            ParserState::Normal,
            toks,
        ).0 matches Ok(e) ==> well_formed(e),
{
    let initial = seq![IncompleteView::Expressions(Seq::<ExpressionView>::empty())];
    lemma_spec_parse_wf(initial, ParserState::Normal, toks);
}

/// Every identifier of the expression, variable or binder, holds only
/// alphanumeric characters: true of everything built from the lexer's
/// identifier tokens.
pub open spec fn expr_identifiers_alphanumeric(e: ExpressionView) -> bool
    decreases e,
{
    match e {
        ExpressionView::Variable(i) => crate::lexer::all_alphanumeric(i),
        ExpressionView::Lambda(i, b) => crate::lexer::all_alphanumeric(i)
            && expr_identifiers_alphanumeric(*b),
        ExpressionView::Application(es) => forall|i: int|
            0 <= i < es.len() ==> expr_identifiers_alphanumeric(#[trigger] es[i]),
    }
}

/// Every expression of the sequence has only alphanumeric identifiers.
pub open spec fn all_exprs_identifiers_alphanumeric(es: Seq<ExpressionView>) -> bool {
    forall|i: int| 0 <= i < es.len() ==> expr_identifiers_alphanumeric(#[trigger] es[i])
}

/// Every name a frame carries — its expressions' identifiers and, for a
/// binder frame, the binder — is alphanumeric.
pub open spec fn frame_identifiers_alphanumeric(f: IncompleteView) -> bool {
    match f {
        IncompleteView::Expressions(v) => all_exprs_identifiers_alphanumeric(v),
        IncompleteView::Lambda(i, v) => crate::lexer::all_alphanumeric(i)
            && all_exprs_identifiers_alphanumeric(v),
    }
}

/// Every name in every frame of the stack is alphanumeric.
pub open spec fn frames_identifiers_alphanumeric(stack: Seq<IncompleteView>) -> bool {
    forall|i: int| 0 <= i < stack.len() ==> frame_identifiers_alphanumeric(#[trigger] stack[i])
}

pub proof fn lemma_collapse_alphanumeric(es: Seq<ExpressionView>)
    requires
        all_exprs_identifiers_alphanumeric(es),
    ensures
        collapse(es) matches Some(e) ==> expr_identifiers_alphanumeric(e),
{
}

pub proof fn lemma_append_alphanumeric(stack: Seq<IncompleteView>, e: ExpressionView)
    requires
        frames_identifiers_alphanumeric(stack),
        expr_identifiers_alphanumeric(e),
    ensures
        frames_identifiers_alphanumeric(append_to_top(stack, e)),
{
    if stack.len() > 0 {
        let updated = append_to_top(stack, e);
        assert forall|i: int| 0 <= i < updated.len() implies frame_identifiers_alphanumeric(
            #[trigger] updated[i],
        ) by {
            if i == stack.len() - 1 {
                let v = frame_exprs(stack[i]);
                let v2 = frame_exprs(updated[i]);
                assert(v2 == v.push(e));
                assert forall|j: int| 0 <= j < v2.len() implies expr_identifiers_alphanumeric(
                    #[trigger] v2[j],
                ) by {
                    if j < v.len() {
                        assert(expr_identifiers_alphanumeric(v[j]));
                    }
                }
            }
        }
    }
}

pub proof fn lemma_bubble_alphanumeric(
    stack: Seq<IncompleteView>,
    binder: Option<Seq<char>>,
    es: Seq<ExpressionView>,
)
    requires
        frames_identifiers_alphanumeric(stack),
        all_exprs_identifiers_alphanumeric(es),
        binder matches Some(i) ==> crate::lexer::all_alphanumeric(i),
    ensures
        frames_identifiers_alphanumeric(spec_bubble(stack, binder, es).1),
{
    lemma_collapse_alphanumeric(es);
    match collapse(es) {
        Some(inner) => {
            let e = match binder {
                Some(i) => ExpressionView::Lambda(i, Box::new(inner)),
                None => inner,
            };
            lemma_append_alphanumeric(stack, e);
        },
        None => {},
    }
}

pub proof fn lemma_close_on_right_alphanumeric(stack: Seq<IncompleteView>)
    requires
        frames_identifiers_alphanumeric(stack),
    ensures
        frames_identifiers_alphanumeric(close_on_right(stack).1),
    decreases stack.len(),
{
    if stack.len() > 1 {
        let rest = stack.drop_last();
        assert(frame_identifiers_alphanumeric(stack.last()));
        match stack.last() {
            IncompleteView::Expressions(v) => {
                lemma_bubble_alphanumeric(rest, None, v);
            },
            IncompleteView::Lambda(i, v) => {
                lemma_bubble_alphanumeric(rest, Some(i), v);
                let (r, closed) = spec_bubble(rest, Some(i), v);
                if r is Ok {
                    lemma_close_on_right_alphanumeric(closed);
                }
            },
        }
    }
}

pub proof fn lemma_step_alphanumeric(
    stack: Seq<IncompleteView>,
    state: ParserState,
    t: TokenTypeView,
)
    requires
        frames_identifiers_alphanumeric(stack),
        t matches TokenTypeView::Identifier(s) ==> crate::lexer::all_alphanumeric(s),
    ensures
        frames_identifiers_alphanumeric(spec_step(stack, state, t).1),
{
    match state {
        ParserState::Normal => {
            match t {
                TokenTypeView::Bracket(Direction::Left) => {
                    let pushed = stack.push(IncompleteView::Expressions(seq![]));
                    assert(frames_identifiers_alphanumeric(pushed));
                },
                TokenTypeView::Bracket(Direction::Right) => {
                    lemma_close_on_right_alphanumeric(stack);
                },
                TokenTypeView::Identifier(s) => {
                    lemma_append_alphanumeric(stack, ExpressionView::Variable(s));
                },
                _ => {},
            }
        },
        _ => {
            match t {
                TokenTypeView::Identifier(s) => {
                    let pushed = stack.push(IncompleteView::Lambda(s, seq![]));
                    assert(frames_identifiers_alphanumeric(pushed));
                },
                _ => {},
            }
        },
    }
}

pub proof fn lemma_close_at_end_alphanumeric(stack: Seq<IncompleteView>)
    requires
        stack_ok(stack),
        frames_identifiers_alphanumeric(stack),
    ensures
        close_at_end(stack).0 matches Ok(e) ==> expr_identifiers_alphanumeric(e),
    decreases stack.len(),
{
    if stack.len() == 1 {
        match stack.last() {
            IncompleteView::Expressions(v) => {
                lemma_collapse_alphanumeric(v);
            },
            IncompleteView::Lambda(_, _) => {},
        }
    } else if stack.len() > 1 {
        let rest = stack.drop_last();
        assert(frame_identifiers_alphanumeric(stack.last()));
        match stack.last() {
            IncompleteView::Lambda(i, v) => {
                lemma_bubble_alphanumeric(rest, Some(i), v);
                let (r, closed) = spec_bubble(rest, Some(i), v);
                if r is Ok {
                    lemma_close_at_end_alphanumeric(closed);
                }
            },
            IncompleteView::Expressions(_) => {},
        }
    }
}

pub proof fn lemma_spec_parse_alphanumeric(
    stack: Seq<IncompleteView>,
    state: ParserState,
    toks: Seq<Result<crate::lexer::TokenView, LexErrorView>>,
)
    requires
        stack_ok(stack),
        frames_identifiers_alphanumeric(stack),
        crate::lexer::stream_identifiers_alphanumeric(toks),
    ensures
        spec_parse(stack, state, toks).0 matches Ok(e) ==> expr_identifiers_alphanumeric(e),
    decreases toks.len(),
{
    if toks.len() == 0 {
        lemma_close_at_end_alphanumeric(stack);
    } else {
        assert(crate::lexer::item_identifier_alphanumeric(toks[0]));
        match toks[0] {
            Ok(t) => {
                let (r, stack2) = spec_step(stack, state, t.token_type);
                lemma_step_shape(stack, state, t.token_type);
                lemma_step_alphanumeric(stack, state, t.token_type);
                match r {
                    Ok(state2) => {
                        assert forall|j: int|
                            0 <= j < toks.drop_first().len() implies crate::lexer::item_identifier_alphanumeric(
                            #[trigger] toks.drop_first()[j],
                        ) by {
                            assert(toks.drop_first()[j] == toks[j + 1]);
                        }
                        lemma_spec_parse_alphanumeric(stack2, state2, toks.drop_first());
                    },
                    Err(_) => {},
                }
            },
            Err(_) => {},
        }
    }
}

/// A parser run, from the fresh state, only ever builds identifiers out of
/// the stream's identifier tokens: with a stream whose identifier tokens
/// are all alphanumeric — as the lexer's always are — every name of the
/// resulting tree is alphanumeric.
pub proof fn lemma_parse_result_identifiers_alphanumeric(
    toks: Seq<Result<crate::lexer::TokenView, LexErrorView>>,
)
    requires
        crate::lexer::stream_identifiers_alphanumeric(toks),
    ensures
        spec_parse(
            seq![IncompleteView::Expressions(seq![])],
            ParserState::Normal,
            toks,
        ).0 matches Ok(e) ==> expr_identifiers_alphanumeric(e),
{
    let initial = seq![IncompleteView::Expressions(Seq::<ExpressionView>::empty())];
    lemma_spec_parse_alphanumeric(initial, ParserState::Normal, toks);
}

/// The incremental tree builder. The stack's bottommost frame is the
/// top-level scope; it is removed only at end of input, yielding the final
/// expression.
pub struct Parser {
    pub parse_stack: Vec<Incomplete>,
}

impl View for Parser {
    type V = Seq<IncompleteView>;

    open spec fn view(&self) -> Seq<IncompleteView> {
        stack_view(self.parse_stack@)
    }
}

impl Parser {
    pub fn new() -> (r: Parser)
        ensures
            r@ == seq![IncompleteView::Expressions(Seq::<ExpressionView>::empty())],
    {
        let mut parse_stack: Vec<Incomplete> = Vec::new();
        parse_stack.push(Incomplete::Expressions(Vec::new()));
        let r = Parser { parse_stack };
        proof {
            assert(r@ =~= seq![IncompleteView::Expressions(Seq::<ExpressionView>::empty())]);
        }
        r
    }

    /// Collapse a finished scope's expression list.
    pub fn convert_to_expression(mut v: Vec<Expression>) -> (r: Option<Expression>)
        ensures
            match r {
                Some(e) => collapse(exprs_view(v@)) == Some(expr_view(e)),
                None => collapse(exprs_view(v@)) is None,
            },
    {
        broadcast use lemma_exprs_view;

        if v.len() > 1 {
            Some(Expression::Application(v))
        } else if v.len() == 1 {
            let e = v.remove(0);
            Some(e)
        } else {
            None
        }
    }

    /// Close one already-popped frame: collapse its list, wrap it in the
    /// binder if one is given, and append the result into the frame now on
    /// top.
    pub fn bubble_up_expression(
        &mut self,
        lambda_identifier: Option<String>,
        v: Vec<Expression>,
    ) -> (r: Result<(), ParseError>)
        requires
            old(self)@.len() >= 1,
        ensures
            ({
                let (sr, stack) = spec_bubble(old(self)@, binder_view(lambda_identifier), exprs_view(v@));
                final(self)@ == stack && (match r {
                    Ok(_) => sr is Ok,
                    Err(e) => sr == Err::<(), ParseErrorView>(e@),
                })
            }),
    {
        broadcast use lemma_stack_view_push, lemma_stack_view_drop_last, lemma_exprs_view_push;

        let ghost pre = self@;
        let inner_expression = match Self::convert_to_expression(v) {
            Some(e) => e,
            None => {
                return Err(ParseError::EmptyParenthesizedExpression);
            },
        };
        let expression = match lambda_identifier {
            Some(i) => Expression::Lambda(i, Box::new(inner_expression)),
            None => inner_expression,
        };
        let ghost ev = expr_view(expression);
        let mut incomplete = self.parse_stack.pop().unwrap();
        match &mut incomplete {
            Incomplete::Expressions(e) => e.push(expression),
            Incomplete::Lambda(_, e) => e.push(expression),
        }
        self.parse_stack.push(incomplete);
        proof {
            assert(self@ =~= append_to_top(pre, ev));
        }
        Ok(())
    }

    /// One `Normal`-state transition on a token; returns the state for the
    /// next token.
    #[verifier::loop_isolation(false)]
    pub fn normal(&mut self, t: Token) -> (r: Result<ParserState, ParseError>)
        requires
            old(self)@.len() >= 1,
        ensures
            ({
                let (sr, stack) = spec_normal(old(self)@, t@.token_type);
                final(self)@ == stack && (match r {
                    Ok(state) => sr == Ok::<ParserState, ParseErrorView>(state),
                    Err(e) => sr == Err::<ParserState, ParseErrorView>(e@),
                })
            }),
    {
        broadcast use lemma_stack_view_push, lemma_stack_view_drop_last, lemma_exprs_view_push;

        match t.token_type {
            TokenType::Bracket(Direction::Left) => {
                let incomplete = Incomplete::Expressions(Vec::new());
                self.parse_stack.push(incomplete);
                proof {
                    assert(self@ =~= old(self)@.push(IncompleteView::Expressions(seq![])));
                }
                Ok(ParserState::Normal)
            },
            TokenType::Bracket(Direction::Right) => {
                let ghost target = close_on_right(old(self)@);
                loop
                    invariant
                        self@.len() >= 1,
                        close_on_right(self@) == target,
                    decreases self@.len(),
                {
                    let ghost pre_iter = self@;
                    if self.parse_stack.len() > 1 {
                        let top = self.parse_stack.pop().unwrap();
                        proof {
                            assert(self@ == pre_iter.drop_last());
                            assert(top@ == pre_iter.last());
                        }
                        match top {
                            Incomplete::Expressions(v) => {
                                match self.bubble_up_expression(None, v) {
                                    Ok(_) => {
                                        return Ok(ParserState::Normal);
                                    },
                                    Err(e) => {
                                        return Err(e);
                                    },
                                }
                            },
                            Incomplete::Lambda(i, v) => {
                                match self.bubble_up_expression(Some(i), v) {
                                    Ok(_) => {},
                                    Err(e) => {
                                        return Err(e);
                                    },
                                }
                            },
                        }
                    } else {
                        return Err(ParseError::UnexpectedClosingBracket);
                    }
                }
            },
            TokenType::Dot => Err(ParseError::DotWithoutLambda),
            TokenType::Identifier(s) => {
                let expression = Expression::Variable(s);
                let ghost ev = expr_view(expression);
                let mut incomplete = self.parse_stack.pop().unwrap();
                match &mut incomplete {
                    Incomplete::Expressions(e) => e.push(expression),
                    Incomplete::Lambda(_, e) => e.push(expression),
                }
                self.parse_stack.push(incomplete);
                proof {
                    assert(self@ =~= append_to_top(old(self)@, ev));
                }
                Ok(ParserState::Normal)
            },
            TokenType::Lambda => Ok(ParserState::Lambda),
        }
    }

    /// One `Lambda`-state transition on a token.
    pub fn lambda(&mut self, t: Token) -> (r: Result<ParserState, ParseError>)
        ensures
            ({
                let (sr, stack) = spec_lambda(old(self)@, t@.token_type);
                final(self)@ == stack && (match r {
                    Ok(state) => sr == Ok::<ParserState, ParseErrorView>(state),
                    Err(e) => sr == Err::<ParserState, ParseErrorView>(e@),
                })
            }),
    {
        broadcast use lemma_stack_view_push;

        match t.token_type {
            TokenType::Identifier(s) => {
                self.parse_stack.push(Incomplete::Lambda(s, Vec::new()));
                Ok(ParserState::ExpectDotOrIdentifier)
            },
            _ => Err(ParseError::ExpectedIdentifierAfterLambda),
        }
    }

    /// One `ExpectDotOrIdentifier`-state transition on a token.
    pub fn expect_dot_or_identifier(&mut self, t: Token) -> (r: Result<ParserState, ParseError>)
        ensures
            ({
                let (sr, stack) = spec_expect_dot_or_identifier(old(self)@, t@.token_type);
                final(self)@ == stack && (match r {
                    Ok(state) => sr == Ok::<ParserState, ParseErrorView>(state),
                    Err(e) => sr == Err::<ParserState, ParseErrorView>(e@),
                })
            }),
    {
        broadcast use lemma_stack_view_push;

        match t.token_type {
            TokenType::Dot => Ok(ParserState::Normal),
            TokenType::Identifier(s) => {
                self.parse_stack.push(Incomplete::Lambda(s, Vec::new()));
                Ok(ParserState::ExpectDotOrIdentifier)
            },
            _ => Err(ParseError::ExpectedDotOrIdentifier),
        }
    }

    /// Parse the whole token-result stream into a single expression. The
    /// first lexing error read aborts the parse: the rest of the stream is
    /// drained solely to collect every remaining lexing error, and the run
    /// fails with all of them.
    #[verifier::loop_isolation(false)]
    pub fn run<I>(&mut self, token_source: I) -> (r: Result<Expression, ParseError>) where
        I: crate::common::Source<Result<Token, LexError>>,
        requires
            stack_ok(old(self)@),
        ensures
            ({
                let (sr, stack) = spec_parse(
                    old(self)@,
                    ParserState::Normal,
                    crate::lexer::lex_results_view(token_source.remaining()),
                );
                final(self)@ == stack && (match r {
                    Ok(e) => sr == Ok::<ExpressionView, ParseErrorView>(expr_view(e)),
                    Err(e) => sr == Err::<ExpressionView, ParseErrorView>(e@),
                })
            }),
    {
        broadcast use crate::common::lemma_add_singleton, crate::common::lemma_add_associative, vstd::prelude::Seq::add_empty_right, lemma_lex_error_seq_view_push;

        let ghost toks0 = crate::lexer::lex_results_view(token_source.remaining());
        let ghost target = spec_parse(old(self)@, ParserState::Normal, toks0);
        let mut token_source = token_source;
        let mut state = ParserState::Normal;
        let mut done = false;
        while !done
            invariant
                stack_ok(self@),
                done ==> token_source.remaining().len() == 0,
                spec_parse(
                    self@,
                    state,
                    crate::lexer::lex_results_view(token_source.remaining()),
                ) == target,
            decreases token_source.remaining().len() + (if done {
                0int
            } else {
                1int
            }),
        {
            let ghost pre_stack = self@;
            let ghost pre_state = state;
            let ghost pre_toks = crate::lexer::lex_results_view(token_source.remaining());
            match token_source.take() {
                Some(item) => {
                    proof {
                        assert(pre_toks[0] == crate::lexer::lex_result_view(item));
                        assert(crate::lexer::lex_results_view(token_source.remaining())
                            =~= pre_toks.drop_first());
                    }
                    match item {
                        Ok(t) => {
                            proof {
                                lemma_step_shape(pre_stack, pre_state, t@.token_type);
                            }
                            let stepped = match state {
                                ParserState::Normal => self.normal(t),
                                ParserState::Lambda => self.lambda(t),
                                ParserState::ExpectDotOrIdentifier => self.expect_dot_or_identifier(
                                    t,
                                ),
                            };
                            match stepped {
                                Ok(next) => {
                                    state = next;
                                },
                                Err(e) => {
                                    return Err(e);
                                },
                            }
                        },
                        Err(err) => {
                            let ghost fail_toks = pre_toks;
                            let mut errors: Vec<LexError> = Vec::new();
                            errors.push(err);
                            proof {
                                assert(lex_error_seq_view(errors@) =~= seq![err@]);
                            }
                            let mut drained = false;
                            while !drained
                                invariant
                                    drained ==> token_source.remaining().len() == 0,
                                    lex_error_seq_view(errors@) + stream_errors(
                                        crate::lexer::lex_results_view(token_source.remaining()),
                                    ) == stream_errors(fail_toks),
                                decreases token_source.remaining().len() + (if drained {
                                    0int
                                } else {
                                    1int
                                }),
                            {
                                let ghost drain_toks = crate::lexer::lex_results_view(
                                    token_source.remaining(),
                                );
                                match token_source.take() {
                                    Some(next_item) => {
                                        proof {
                                            assert(drain_toks[0] == crate::lexer::lex_result_view(
                                                next_item,
                                            ));
                                            assert(crate::lexer::lex_results_view(
                                                token_source.remaining(),
                                            ) =~= drain_toks.drop_first());
                                        }
                                        match next_item {
                                            Err(e2) => {
                                                errors.push(e2);
                                            },
                                            Ok(_) => {},
                                        }
                                    },
                                    None => {
                                        drained = true;
                                    },
                                }
                            }
                            return Err(ParseError::LexingFailed(errors));
                        },
                    }
                },
                None => {
                    done = true;
                },
            }
        }
        self.construct_expression()
    }

    /// End of input: close the remaining frames and yield the final
    /// expression.
    #[verifier::loop_isolation(false)]
    pub fn construct_expression(&mut self) -> (r: Result<Expression, ParseError>)
        requires
            stack_ok(old(self)@),
        ensures
            ({
                let (sr, stack) = close_at_end(old(self)@);
                final(self)@ == stack && (match r {
                    Ok(e) => sr == Ok::<ExpressionView, ParseErrorView>(expr_view(e)),
                    Err(e) => sr == Err::<ExpressionView, ParseErrorView>(e@),
                })
            }),
    {
        broadcast use lemma_stack_view_push, lemma_stack_view_drop_last, lemma_exprs_view_push;

        let ghost target = close_at_end(old(self)@);
        loop
            invariant
                stack_ok(self@),
                close_at_end(self@) == target,
            decreases self@.len(),
        {
            let ghost pre_iter = self@;
            if self.parse_stack.len() == 1 {
                let bottom = self.parse_stack.pop().unwrap();
                proof {
                    assert(self@ == pre_iter.drop_last());
                    assert(bottom@ == pre_iter.last());
                }
                match bottom {
                    Incomplete::Expressions(v) => {
                        match Self::convert_to_expression(v) {
                            Some(e) => {
                                return Ok(e);
                            },
                            None => {
                                return Err(ParseError::EmptyParenthesizedExpression);
                            },
                        }
                    },
                    _ => {
                        proof {
                            assert(false);
                        }
                        vstd::pervasive::unreached()
                    },
                }
            } else {
                let top = self.parse_stack.pop().unwrap();
                proof {
                    assert(self@ == pre_iter.drop_last());
                    assert(top@ == pre_iter.last());
                }
                match top {
                    Incomplete::Lambda(i, v) => {
                        match self.bubble_up_expression(Some(i), v) {
                            Ok(_) => {},
                            Err(e) => {
                                return Err(e);
                            },
                        }
                    },
                    Incomplete::Expressions(_) => {
                        return Err(ParseError::MissingClosingBracket);
                    },
                }
            }
        }
    }
}

} // verus!
