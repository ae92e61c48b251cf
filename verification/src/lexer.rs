//! The lexer: a character-to-token state machine that tracks row and column.
//!
//! The machine has two modes. In `Normal` mode a reserved symbol becomes a
//! token at once, an alphanumeric character opens an identifier, whitespace
//! is discarded and anything else is reported in-stream as an error. In
//! `Identifier` mode alphanumeric characters accumulate; whitespace or a
//! reserved symbol flushes the buffered identifier and re-dispatches the
//! terminating character through `Normal` mode. Lexing never aborts: errors
//! are pushed to the sink alongside the tokens, in stream order.

use vstd::prelude::*;

use crate::common::{Direction, Sink};
use crate::text::{char_alphanumeric, char_whitespace, is_alphanumeric, is_whitespace};

verus! {

/// A zero-indexed row/column pair, advancing as input is consumed.
#[derive(Debug, PartialEq, Eq, Structural, Clone, Copy)]
pub struct Point {
    pub row: usize,
    pub column: usize,
}

impl Point {
    pub fn new(row: usize, column: usize) -> (r: Self)
        ensures
            r == (Point { row, column }),
    {
        Point { row, column }
    }
}

/// The inclusive span of a token, from its first to its last character.
#[derive(Debug, PartialEq, Eq, Structural, Clone, Copy)]
pub struct Position {
    pub starting_point: Point,
    pub ending_point: Point,
}

impl Position {
    pub fn new(starting_point: Point, ending_point: Point) -> (r: Self)
        ensures
            r == (Position { starting_point, ending_point }),
    {
        Position { starting_point, ending_point }
    }
}

/// What kind of token was read.
#[derive(Debug, PartialEq)]
pub enum TokenType {
    Lambda,
    Dot,
    Bracket(Direction),
    Identifier(String),
}

/// The mathematical value of a [`TokenType`]: identifier names become
/// character sequences.
pub enum TokenTypeView {
    Lambda,
    Dot,
    Bracket(Direction),
    Identifier(Seq<char>),
}

impl View for TokenType {
    type V = TokenTypeView;

    open spec fn view(&self) -> TokenTypeView {
        match self {
            TokenType::Lambda => TokenTypeView::Lambda,
            TokenType::Dot => TokenTypeView::Dot,
            TokenType::Bracket(d) => TokenTypeView::Bracket(*d),
            TokenType::Identifier(s) => TokenTypeView::Identifier(s@),
        }
    }
}

/// A token together with the span it was read from.
#[derive(Debug, PartialEq)]
pub struct Token {
    pub token_type: TokenType,
    pub position: Position,
}

/// The mathematical value of a [`Token`].
pub struct TokenView {
    pub token_type: TokenTypeView,
    pub position: Position,
}

impl View for Token {
    type V = TokenView;

    open spec fn view(&self) -> TokenView {
        TokenView { token_type: self.token_type@, position: self.position }
    }
}

impl Token {
    pub fn new(token_type: TokenType, position: Position) -> (r: Token)
        ensures
            r == (Token { token_type, position }),
    {
        Token { token_type, position }
    }
}

/// A character the lexer could not accept, recorded in-stream.
#[derive(Debug, PartialEq)]
pub enum LexError {
    /// A character that interrupted an identifier run without terminating it.
    IdentifierError(String, Position),
    /// A character outside the recognized alphabet, met outside an identifier.
    InvalidCharacterError(char, Position),
}

/// The mathematical value of a [`LexError`].
pub enum LexErrorView {
    IdentifierError(Seq<char>, Position),
    InvalidCharacterError(char, Position),
}

impl View for LexError {
    type V = LexErrorView;

    open spec fn view(&self) -> LexErrorView {
        match self {
            LexError::IdentifierError(m, p) => LexErrorView::IdentifierError(m@, *p),
            LexError::InvalidCharacterError(c, p) => LexErrorView::InvalidCharacterError(*c, *p),
        }
    }
}

/// The mathematical value of one item of the lexer's output stream.
pub open spec fn lex_result_view(r: Result<Token, LexError>) -> Result<TokenView, LexErrorView> {
    match r {
        Ok(t) => Ok(t@),
        Err(e) => Err(e@),
    }
}

/// The mathematical value of the lexer's output stream.
pub open spec fn lex_results_view(s: Seq<Result<Token, LexError>>) -> Seq<
    Result<TokenView, LexErrorView>,
> {
    s.map_values(|r| lex_result_view(r))
}

pub broadcast proof fn lemma_lex_results_view_push(
    s: Seq<Result<Token, LexError>>,
    r: Result<Token, LexError>,
)
    ensures
        #[trigger] lex_results_view(s.push(r)) == lex_results_view(s).push(lex_result_view(r)),
{
    assert(lex_results_view(s.push(r)) =~= lex_results_view(s).push(lex_result_view(r)));
}

/// The lexer's two modes: the next character is dispatched through the mode's
/// transition.
#[derive(Debug, PartialEq, Eq, Structural, Clone, Copy)]
pub enum LexerState {
    Normal,
    Identifier,
}

/// The mathematical state of a [`Lexer`]: the buffered identifier run, the
/// recorded start of that run, and the current point.
pub struct LexerView {
    pub buffer: Seq<char>,
    pub starting_point: Option<Point>,
    pub row: usize,
    pub column: usize,
}

/// A reserved single-character symbol: lambda introducer, bracket or dot.
pub open spec fn reserved(c: char) -> bool {
    c == '\\' || c == '\u{3bb}' || c == '(' || c == ')' || c == '.'
}

/// The token a reserved symbol lexes to.
pub open spec fn reserved_token_type(c: char) -> TokenTypeView {
    if c == '\\' || c == '\u{3bb}' {
        TokenTypeView::Lambda
    } else if c == '(' {
        TokenTypeView::Bracket(Direction::Left)
    } else if c == ')' {
        TokenTypeView::Bracket(Direction::Right)
    } else {
        TokenTypeView::Dot
    }
}

/// The span a token emitted now gets: from the recorded start of the current
/// identifier run if one is open, else from the current point, to the current
/// point.
pub open spec fn spec_current_position(st: LexerView) -> Position {
    let ending_point = Point { row: st.row, column: st.column };
    let starting_point = match st.starting_point {
        Some(p) => p,
        None => ending_point,
    };
    Position { starting_point, ending_point }
}

/// The message recorded for a character that interrupts an identifier run.
pub open spec fn identifier_error_message(c: char) -> Seq<char> {
    "Invalid character "@ + seq![c] + " found in an identifier"@
}

/// Flushing the buffered identifier: the token's span ends one column before
/// the current (terminating) character.
pub open spec fn flush_token(st: LexerView) -> (LexerView, Result<TokenView, LexErrorView>) {
    let pos = spec_current_position(st);
    let position = Position {
        starting_point: pos.starting_point,
        ending_point: Point {
            row: pos.ending_point.row,
            column: (pos.ending_point.column - 1) as usize,
        },
    };
    let flushed = LexerView { buffer: Seq::empty(), starting_point: None, ..st };
    (flushed, Ok(TokenView { token_type: TokenTypeView::Identifier(st.buffer), position }))
}

/// One `Normal`-mode transition: the emitted stream items, the successor
/// state and the successor mode.
pub open spec fn normal_step(st: LexerView, c: char) -> (
    LexerView,
    Seq<Result<TokenView, LexErrorView>>,
    LexerState,
) {
    if reserved(c) {
        let token = TokenView {
            token_type: reserved_token_type(c),
            position: spec_current_position(st),
        };
        (st, seq![Ok(token)], LexerState::Normal)
    } else if char_alphanumeric(c) {
        let opened = LexerView {
            buffer: st.buffer.push(c),
            starting_point: Some(Point { row: st.row, column: st.column }),
            ..st
        };
        (opened, seq![], LexerState::Identifier)
    } else if char_whitespace(c) {
        (st, seq![], LexerState::Normal)
    } else {
        let error = LexErrorView::InvalidCharacterError(c, spec_current_position(st));
        (st, seq![Err(error)], LexerState::Normal)
    }
}

/// One `Identifier`-mode transition. A terminating character flushes the
/// buffered identifier and is then re-dispatched through `Normal` mode.
pub open spec fn identifier_step(st: LexerView, c: char) -> (
    LexerView,
    Seq<Result<TokenView, LexErrorView>>,
    LexerState,
) {
    if char_alphanumeric(c) {
        (LexerView { buffer: st.buffer.push(c), ..st }, seq![], LexerState::Identifier)
    } else if char_whitespace(c) || reserved(c) {
        let (flushed, token) = flush_token(st);
        let (next, emitted, mode) = normal_step(flushed, c);
        (next, seq![token] + emitted, mode)
    } else {
        let error = LexErrorView::IdentifierError(
            identifier_error_message(c),
            spec_current_position(st),
        );
        (st, seq![Err(error)], LexerState::Identifier)
    }
}

/// One transition of the machine, dispatched on the current mode.
pub open spec fn lex_step(st: LexerView, mode: LexerState, c: char) -> (
    LexerView,
    Seq<Result<TokenView, LexErrorView>>,
    LexerState,
) {
    match mode {
        LexerState::Normal => normal_step(st, c),
        LexerState::Identifier => identifier_step(st, c),
    }
}

/// The bookkeeping applied after each consumed character: a newline moves to
/// the start of the next row, anything else advances the column.
pub open spec fn advance_point(st: LexerView, c: char) -> LexerView {
    if c == '\n' {
        LexerView { row: (st.row + 1) as usize, column: 0, ..st }
    } else {
        LexerView { column: (st.column + 1) as usize, ..st }
    }
}

/// Running the machine over a whole character sequence, without the final
/// flush.
pub open spec fn lex_chars(st: LexerView, mode: LexerState, cs: Seq<char>) -> (
    LexerView,
    Seq<Result<TokenView, LexErrorView>>,
    LexerState,
)
    decreases cs.len(),
{
    if cs.len() == 0 {
        (st, seq![], mode)
    } else {
        let (st1, emitted1, mode1) = lex_step(st, mode, cs[0]);
        let (st2, emitted2, mode2) = lex_chars(advance_point(st1, cs[0]), mode1, cs.drop_first());
        (st2, emitted1 + emitted2, mode2)
    }
}

/// The end-of-input flush: an identifier still mid-accumulation is emitted
/// with the last-seen point as its end.
pub open spec fn finish(st: LexerView) -> (LexerView, Seq<Result<TokenView, LexErrorView>>) {
    if st.buffer.len() > 0 {
        let (flushed, token) = flush_token(st);
        (flushed, seq![token])
    } else {
        (st, seq![])
    }
}

/// A complete run over a finite character sequence: the machine starts in
/// `Normal` mode, consumes every character, then flushes.
pub open spec fn lex_all(st: LexerView, cs: Seq<char>) -> (
    LexerView,
    Seq<Result<TokenView, LexErrorView>>,
) {
    let (st1, emitted1, _) = lex_chars(st, LexerState::Normal, cs);
    let (st2, emitted2) = finish(st1);
    (st2, emitted1 + emitted2)
}

/// Every character of the sequence is alphanumeric.
pub open spec fn all_alphanumeric(s: Seq<char>) -> bool {
    forall|i: int| 0 <= i < s.len() ==> char_alphanumeric(#[trigger] s[i])
}

/// An identifier token of the stream holds only alphanumeric characters;
/// any other stream item trivially qualifies.
pub open spec fn item_identifier_alphanumeric(r: Result<TokenView, LexErrorView>) -> bool {
    match r {
        Ok(t) => match t.token_type {
            TokenTypeView::Identifier(s) => all_alphanumeric(s),
            _ => true,
        },
        Err(_) => true,
    }
}

/// Every identifier token of the stream holds only alphanumeric characters.
pub open spec fn stream_identifiers_alphanumeric(
    out: Seq<Result<TokenView, LexErrorView>>,
) -> bool {
    forall|j: int| 0 <= j < out.len() ==> item_identifier_alphanumeric(#[trigger] out[j])
}

pub proof fn lemma_normal_step_identifiers(st: LexerView, c: char)
    requires
        all_alphanumeric(st.buffer),
    ensures
        ({
            let (st1, out1, _) = normal_step(st, c);
            all_alphanumeric(st1.buffer) && stream_identifiers_alphanumeric(out1)
        }),
{
    if !reserved(c) && char_alphanumeric(c) {
        let pushed = st.buffer.push(c);
        assert forall|i: int| 0 <= i < pushed.len() implies char_alphanumeric(
            #[trigger] pushed[i],
        ) by {
            if i < st.buffer.len() {
                assert(char_alphanumeric(st.buffer[i]));
            }
        }
    }
}

pub proof fn lemma_step_identifiers(st: LexerView, mode: LexerState, c: char)
    requires
        all_alphanumeric(st.buffer),
    ensures
        ({
            let (st1, out1, _) = lex_step(st, mode, c);
            all_alphanumeric(st1.buffer) && stream_identifiers_alphanumeric(out1)
        }),
{
    match mode {
        LexerState::Normal => {
            lemma_normal_step_identifiers(st, c);
        },
        LexerState::Identifier => {
            if char_alphanumeric(c) {
                let pushed = st.buffer.push(c);
                assert forall|i: int| 0 <= i < pushed.len() implies char_alphanumeric(
                    #[trigger] pushed[i],
                ) by {
                    if i < st.buffer.len() {
                        assert(char_alphanumeric(st.buffer[i]));
                    }
                }
            } else if char_whitespace(c) || reserved(c) {
                let (flushed, token) = flush_token(st);
                lemma_normal_step_identifiers(flushed, c);
                let (_, emitted, _) = normal_step(flushed, c);
                let out1 = seq![token] + emitted;
                assert forall|j: int| 0 <= j < out1.len() implies item_identifier_alphanumeric(
                    #[trigger] out1[j],
                ) by {
                    if j > 0 {
                        assert(out1[j] == emitted[j - 1]);
                        assert(item_identifier_alphanumeric(emitted[j - 1]));
                    }
                }
            }
        },
    }
}

/// The lexer only ever emits identifier tokens whose characters are all
/// alphanumeric: nothing else is ever buffered.
pub proof fn lemma_lex_chars_identifiers(st: LexerView, mode: LexerState, cs: Seq<char>)
    requires
        all_alphanumeric(st.buffer),
    ensures
        ({
            let (st2, out, _) = lex_chars(st, mode, cs);
            all_alphanumeric(st2.buffer) && stream_identifiers_alphanumeric(out)
        }),
    decreases cs.len(),
{
    if cs.len() > 0 {
        lemma_step_identifiers(st, mode, cs[0]);
        let (st1, out1, m1) = lex_step(st, mode, cs[0]);
        lemma_lex_chars_identifiers(advance_point(st1, cs[0]), m1, cs.drop_first());
        let (st2, out2, _) = lex_chars(advance_point(st1, cs[0]), m1, cs.drop_first());
        let out = out1 + out2;
        assert forall|j: int| 0 <= j < out.len() implies item_identifier_alphanumeric(
            #[trigger] out[j],
        ) by {
            if j < out1.len() {
                assert(item_identifier_alphanumeric(out1[j]));
            } else {
                assert(out[j] == out2[j - out1.len()]);
                assert(item_identifier_alphanumeric(out2[j - out1.len()]));
            }
        }
    }
}

/// A whole lexer run on an empty starting buffer only ever emits identifier
/// tokens whose characters are all alphanumeric.
pub proof fn lemma_lex_all_identifiers(st: LexerView, cs: Seq<char>)
    requires
        all_alphanumeric(st.buffer),
    ensures
        stream_identifiers_alphanumeric(lex_all(st, cs).1),
{
    lemma_lex_chars_identifiers(st, LexerState::Normal, cs);
    let (st1, out1, _) = lex_chars(st, LexerState::Normal, cs);
    let (_, out2) = finish(st1);
    let out = out1 + out2;
    assert forall|j: int| 0 <= j < out.len() implies item_identifier_alphanumeric(
        #[trigger] out[j],
    ) by {
        if j < out1.len() {
            assert(item_identifier_alphanumeric(out1[j]));
        } else {
            assert(out[j] == out2[j - out1.len()]);
        }
    }
}

/// The tokenizing state machine. Tokens and in-stream errors are pushed to
/// the sink; the buffer and recorded starting point carry an identifier run
/// in progress.
pub struct Lexer<O> where O: Sink<Result<Token, LexError>> {
    pub token_sink: O,
    pub buffer: String,
    pub starting_point: Option<Point>,
    pub row: usize,
    pub column: usize,
}

impl<O> View for Lexer<O> where O: Sink<Result<Token, LexError>> {
    type V = LexerView;

    open spec fn view(&self) -> LexerView {
        LexerView {
            buffer: self.buffer@,
            starting_point: self.starting_point,
            row: self.row,
            column: self.column,
        }
    }
}

impl<O> Lexer<O> where O: Sink<Result<Token, LexError>> {
    pub fn new(token_sink: O) -> (r: Lexer<O>)
        ensures
            r@ == (LexerView {
                buffer: Seq::<char>::empty(),
                starting_point: None::<Point>,
                row: 0usize,
                column: 0usize,
            }),
            r.token_sink == token_sink,
    {
        Lexer { token_sink, buffer: String::new(), starting_point: None, row: 0, column: 0 }
    }

    /// The span a token emitted now would get.
    pub fn get_current_position(&mut self) -> (r: Position)
        ensures
            r == spec_current_position(old(self)@),
            *final(self) == *old(self),
    {
        let ending_point = Point { row: self.row, column: self.column };
        let starting_point = match self.starting_point {
            Some(point) => point,
            None => ending_point,
        };
        Position { starting_point, ending_point }
    }

    /// One `Normal`-mode transition on `c`; returns the mode for the next
    /// character.
    pub fn normal(&mut self, c: char) -> (next: LexerState)
        ensures
            ({
                let (st, emitted, mode) = normal_step(old(self)@, c);
                final(self)@ == st && next == mode && lex_results_view(
                    final(self).token_sink.contents(),
                ) == lex_results_view(old(self).token_sink.contents()) + emitted
            }),
    {
        broadcast use lemma_lex_results_view_push, crate::common::lemma_add_singleton, vstd::prelude::Seq::add_empty_right;

        if c == '\\' || c == '\u{3bb}' || c == '(' || c == ')' || c == '.' {
            let token_type = if c == '\\' || c == '\u{3bb}' {
                TokenType::Lambda
            } else if c == '(' {
                TokenType::Bracket(Direction::Left)
            } else if c == ')' {
                TokenType::Bracket(Direction::Right)
            } else {
                TokenType::Dot
            };
            let position = self.get_current_position();
            let token = Token::new(token_type, position);
            self.token_sink.put(Ok(token));
            LexerState::Normal
        } else if is_alphanumeric(c) {
            self.starting_point = Some(Point { row: self.row, column: self.column });
            self.buffer.push(c);
            LexerState::Identifier
        } else if is_whitespace(c) {
            LexerState::Normal
        } else {
            let position = self.get_current_position();
            let error = LexError::InvalidCharacterError(c, position);
            self.token_sink.put(Err(error));
            LexerState::Normal
        }
    }

    /// One `Identifier`-mode transition on `c`; returns the mode for the next
    /// character. A terminating character needs a column to put the flushed
    /// identifier's end in, hence the requirement.
    pub fn identifier(&mut self, c: char) -> (next: LexerState)
        requires
            !char_alphanumeric(c) && (char_whitespace(c) || reserved(c)) ==> old(
                self,
            )@.column >= 1,
        ensures
            ({
                let (st, emitted, mode) = identifier_step(old(self)@, c);
                final(self)@ == st && next == mode && lex_results_view(
                    final(self).token_sink.contents(),
                ) == lex_results_view(old(self).token_sink.contents()) + emitted
            }),
    {
        broadcast use lemma_lex_results_view_push, crate::common::lemma_add_singleton, vstd::prelude::Seq::add_empty_right;

        if is_alphanumeric(c) {
            self.buffer.push(c);
            LexerState::Identifier
        } else {
            let terminates = is_whitespace(c) || c == '\\' || c == '\u{3bb}' || c == '(' || c
                == ')' || c == '.';
            if terminates {
                let ghost pre = self@;
                let ghost pre_contents = self.token_sink.contents();
                let token_type = TokenType::Identifier(self.buffer.clone());
                self.buffer = String::new();
                let mut position = self.get_current_position();
                position.ending_point.column = position.ending_point.column - 1;
                self.starting_point = None;
                let token = Token::new(token_type, position);
                self.token_sink.put(Ok(token));
                let next = self.normal(c);
                proof {
                    let (flushed, flushed_token) = flush_token(pre);
                    let (st, emitted, _) = normal_step(flushed, c);
                    assert(lex_results_view(self.token_sink.contents()) =~= lex_results_view(
                        pre_contents,
                    ) + (seq![flushed_token] + emitted));
                }
                next
            } else {
                let mut message = String::new();
                message.append("Invalid character ");
                message.push(c);
                message.append(" found in an identifier");
                let position = self.get_current_position();
                let error = LexError::IdentifierError(message, position);
                self.token_sink.put(Err(error));
                LexerState::Identifier
            }
        }
    }

    /// Lex the whole character source, pushing each token or error to the
    /// sink in stream order, and flush a trailing identifier at end of input.
    pub fn run<I>(&mut self, char_source: I) where I: crate::common::Source<char>
        requires
            old(self)@.column + char_source.remaining().len() <= usize::MAX,
            old(self)@.row + char_source.remaining().len() <= usize::MAX,
            old(self)@.buffer.len() == 0,
        ensures
            ({
                let (st, emitted) = lex_all(old(self)@, char_source.remaining());
                final(self)@ == st && lex_results_view(final(self).token_sink.contents())
                    == lex_results_view(old(self).token_sink.contents()) + emitted
            }),
    {
        broadcast use lemma_lex_results_view_push, crate::common::lemma_add_singleton, crate::common::lemma_add_associative, vstd::prelude::Seq::add_empty_right;

        let ghost all = char_source.remaining();
        let ghost st0 = old(self)@;
        let ghost contents0 = old(self).token_sink.contents();
        let ghost target = lex_chars(st0, LexerState::Normal, all);
        let mut char_source = char_source;
        let mut state = LexerState::Normal;
        let mut done = false;
        while !done
            invariant
                self@.column + char_source.remaining().len() <= usize::MAX,
                self@.row + char_source.remaining().len() <= usize::MAX,
                state is Normal ==> self@.buffer.len() == 0,
                state is Identifier ==> self@.buffer.len() > 0 && self@.column >= 1,
                done ==> char_source.remaining().len() == 0,
                target == lex_chars(st0, LexerState::Normal, all),
                lex_chars(self@, state, char_source.remaining()).0 == target.0,
                lex_chars(self@, state, char_source.remaining()).2 == target.2,
                lex_results_view(contents0) + target.1 == lex_results_view(
                    self.token_sink.contents(),
                ) + lex_chars(self@, state, char_source.remaining()).1,
            decreases char_source.remaining().len() + (if done {
                0int
            } else {
                1int
            }),
        {
            let ghost pre = self@;
            let ghost pre_mode = state;
            let ghost pre_remaining = char_source.remaining();
            let ghost pre_contents = self.token_sink.contents();
            match char_source.take() {
                Some(c) => {
                    state = match state {
                        LexerState::Normal => self.normal(c),
                        LexerState::Identifier => self.identifier(c),
                    };
                    if c == '\n' {
                        self.row = self.row + 1;
                        self.column = 0;
                    } else {
                        self.column = self.column + 1;
                    }
                    proof {
                        let (st1, emitted1, mode1) = lex_step(pre, pre_mode, c);
                        assert(self@ == advance_point(st1, c));
                        assert(state == mode1);
                        let rest = lex_chars(advance_point(st1, c), mode1, pre_remaining.drop_first());
                        assert(lex_chars(pre, pre_mode, pre_remaining) == (
                            rest.0,
                            emitted1 + rest.1,
                            rest.2,
                        ));
                        assert(lex_results_view(self.token_sink.contents()) + rest.1
                            == lex_results_view(pre_contents) + (emitted1 + rest.1));
                    }
                }
                None => {
                    done = true;
                }
            }
        }
        if !self.buffer.as_str().is_empty() {
            let token_type = TokenType::Identifier(self.buffer.clone());
            self.buffer = String::new();
            let mut position = self.get_current_position();
            position.ending_point.column = position.ending_point.column - 1;
            self.starting_point = None;
            let token = Token::new(token_type, position);
            self.token_sink.put(Ok(token));
        }
        proof {
            let (st_end, emitted_end) = finish(target.0);
            assert(lex_results_view(self.token_sink.contents()) =~= lex_results_view(contents0)
                + (target.1 + emitted_end));
        }
    }
}


} // verus!
