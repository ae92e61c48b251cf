//! The interpreter: normal-order beta-reduction with capture-avoiding
//! substitution.
//!
//! Substituting under a binder always alpha-converts the binder to a fresh
//! generated name first. Generated names are `#` followed by a decimal
//! counter value; the `#` prefix lies outside the lexer's identifier
//! alphabet, so a generated name can never collide with a user-written one,
//! and the counter makes every generated name of one run distinct.

use vstd::prelude::*;

use crate::parser::{exprs_view, expr_view, well_formed, Expression, ExpressionView};

verus! {

/// The decimal digit character for a value below ten.
pub open spec fn digit_char(d: int) -> char {
    if d == 0 {
        '0'
    } else if d == 1 {
        '1'
    } else if d == 2 {
        '2'
    } else if d == 3 {
        '3'
    } else if d == 4 {
        '4'
    } else if d == 5 {
        '5'
    } else if d == 6 {
        '6'
    } else if d == 7 {
        '7'
    } else if d == 8 {
        '8'
    } else {
        '9'
    }
}

/// The decimal digits of a number, most significant first.
pub open spec fn dec_digits(n: nat) -> Seq<char>
    decreases n,
{
    if n < 10 {
        seq![digit_char(n as int)]
    } else {
        dec_digits(n / 10).push(digit_char((n % 10) as int))
    }
}

/// The name the generator returns for counter value `n`.
pub open spec fn fresh_name(n: nat) -> Seq<char> {
    seq!['#'] + dec_digits(n)
}

pub proof fn lemma_dec_digits_len(n: nat)
    ensures
        dec_digits(n).len() >= 1,
        n >= 10 ==> dec_digits(n).len() >= 2,
    decreases n,
{
    if n >= 10 {
        lemma_dec_digits_len(n / 10);
    }
}

pub proof fn lemma_dec_digits_injective(a: nat, b: nat)
    requires
        dec_digits(a) == dec_digits(b),
    ensures
        a == b,
    decreases a + b,
{
    lemma_dec_digits_len(a);
    lemma_dec_digits_len(b);
    if a < 10 && b < 10 {
        assert(dec_digits(a)[0] == digit_char(a as int));
        assert(dec_digits(b)[0] == digit_char(b as int));
    } else if a < 10 {
        assert(dec_digits(b).len() >= 2);
    } else if b < 10 {
        assert(dec_digits(a).len() >= 2);
    } else {
        let da = digit_char((a % 10) as int);
        let db = digit_char((b % 10) as int);
        assert(dec_digits(a).last() == da);
        assert(dec_digits(b).last() == db);
        assert(a % 10 == b % 10);
        assert(dec_digits(a).drop_last() =~= dec_digits(a / 10));
        assert(dec_digits(b).drop_last() =~= dec_digits(b / 10));
        lemma_dec_digits_injective(a / 10, b / 10);
        assert(a == 10 * (a / 10) + a % 10) by {
            vstd::arithmetic::div_mod::lemma_fundamental_div_mod(a as int, 10);
        }
        assert(b == 10 * (b / 10) + b % 10) by {
            vstd::arithmetic::div_mod::lemma_fundamental_div_mod(b as int, 10);
        }
    }
}

/// Distinct counter values give distinct generated names.
pub proof fn lemma_fresh_name_injective(a: nat, b: nat)
    requires
        fresh_name(a) == fresh_name(b),
    ensures
        a == b,
{
    assert(dec_digits(a) =~= dec_digits(b)) by {
        assert(dec_digits(a).len() == fresh_name(a).len() - 1);
        assert(dec_digits(b).len() == fresh_name(b).len() - 1);
        assert forall|i: int| 0 <= i < dec_digits(a).len() implies #[trigger] dec_digits(a)[i]
            == dec_digits(b)[i] by {
            assert(fresh_name(a)[i + 1] == dec_digits(a)[i]);
            assert(fresh_name(b)[i + 1] == dec_digits(b)[i]);
        }
    }
    lemma_dec_digits_injective(a, b);
}

/// The monotonic fresh-name counter, scoped to one interpreter run.
pub struct NameGen {
    pub cur: usize,
}

impl NameGen {
    pub fn new() -> (r: NameGen)
        ensures
            r.cur == 0,
    {
        NameGen { cur: 0 }
    }

    /// Return the name for the current counter value, then advance.
    pub fn next(&mut self) -> (r: String)
        requires
            old(self).cur < usize::MAX,
        ensures
            r@ == fresh_name(old(self).cur as nat),
            final(self).cur == old(self).cur + 1,
    {
        broadcast use crate::common::lemma_add_singleton;

        let mut string = String::new();
        string.push('#');
        push_decimal(&mut string, self.cur);
        self.cur = self.cur + 1;
        proof {
            assert(Seq::<char>::empty().push('#') =~= seq!['#']);
        }
        string
    }
}

/// The digit character of a value below ten.
fn to_digit_char(d: usize) -> (c: char)
    requires
        d < 10,
    ensures
        c == digit_char(d as int),
{
    if d == 0 {
        '0'
    } else if d == 1 {
        '1'
    } else if d == 2 {
        '2'
    } else if d == 3 {
        '3'
    } else if d == 4 {
        '4'
    } else if d == 5 {
        '5'
    } else if d == 6 {
        '6'
    } else if d == 7 {
        '7'
    } else if d == 8 {
        '8'
    } else {
        '9'
    }
}

/// Append the decimal digits of `n` to the string.
fn push_decimal(s: &mut String, n: usize)
    ensures
        final(s)@ == old(s)@ + dec_digits(n as nat),
    decreases n,
{
    broadcast use crate::common::lemma_add_singleton, vstd::prelude::Seq::push_distributes_over_add;

    if n < 10 {
        s.push(to_digit_char(n));
    } else {
        push_decimal(s, n / 10);
        s.push(to_digit_char(n % 10));
    }
}

/// The number of nodes of an expression: the termination measure for
/// substitution, which recurses into alpha-converted (same-sized) bodies.
pub open spec fn esize(e: ExpressionView) -> nat
    decreases e,
{
    match e {
        ExpressionView::Variable(_) => 1,
        ExpressionView::Lambda(_, b) => 1 + esize(*b),
        ExpressionView::Application(es) => 1 + esize_seq(es),
    }
}

/// The total node count of a sequence of expressions.
pub open spec fn esize_seq(es: Seq<ExpressionView>) -> nat
    decreases es,
{
    if es.len() == 0 {
        0
    } else {
        esize(es[0]) + esize_seq(es.drop_first())
    }
}

pub proof fn lemma_esize_pos(e: ExpressionView)
    ensures
        esize(e) >= 1,
{
}

pub proof fn lemma_esize_element(es: Seq<ExpressionView>, i: int)
    requires
        0 <= i < es.len(),
    ensures
        esize(es[i]) <= esize_seq(es),
    decreases es,
{
    if i > 0 {
        lemma_esize_element(es.drop_first(), i - 1);
    }
}

/// Whether the identifier occurs anywhere in the expression, as a variable
/// or as a binder.
pub open spec fn ident_in(e: ExpressionView, ident: Seq<char>) -> bool
    decreases e,
{
    match e {
        ExpressionView::Variable(i) => i == ident,
        ExpressionView::Lambda(i, b) => i == ident || ident_in(*b, ident),
        ExpressionView::Application(es) => ident_in_any(es, ident),
    }
}

/// Whether the identifier occurs in any expression of the sequence.
pub open spec fn ident_in_any(es: Seq<ExpressionView>, ident: Seq<char>) -> bool
    decreases es,
{
    es.len() != 0 && (ident_in(es[0], ident) || ident_in_any(es.drop_first(), ident))
}

pub proof fn lemma_ident_in_any_iff(es: Seq<ExpressionView>, ident: Seq<char>)
    ensures
        ident_in_any(es, ident) <==> exists|j: int|
            0 <= j < es.len() && ident_in(#[trigger] es[j], ident),
    decreases es,
{
    if es.len() != 0 {
        lemma_ident_in_any_iff(es.drop_first(), ident);
        if ident_in(es[0], ident) {
        } else if ident_in_any(es.drop_first(), ident) {
            let j = choose|j: int|
                0 <= j < es.drop_first().len() && ident_in(#[trigger] es.drop_first()[j], ident);
            assert(es[j + 1] == es.drop_first()[j]);
        } else {
            assert forall|j: int| 0 <= j < es.len() implies !ident_in(#[trigger] es[j], ident) by {
                if j > 0 {
                    assert(es.drop_first()[j - 1] == es[j]);
                }
            }
        }
    }
}

/// No identifier of the expression is a generated name for a counter value
/// of `c` or beyond: the names the generator will still hand out are free.
pub open spec fn avoids_generated(e: ExpressionView, c: nat) -> bool {
    forall|k: nat| k >= c ==> !ident_in(e, #[trigger] fresh_name(k))
}

pub proof fn lemma_avoids_lambda_body(i: Seq<char>, b: ExpressionView, c: nat)
    requires
        avoids_generated(ExpressionView::Lambda(i, Box::new(b)), c),
    ensures
        avoids_generated(b, c),
{
    assert forall|k: nat| k >= c implies !ident_in(b, #[trigger] fresh_name(k)) by {
        assert(!ident_in(ExpressionView::Lambda(i, Box::new(b)), fresh_name(k)));
    }
}

pub proof fn lemma_avoids_element(es: Seq<ExpressionView>, c: nat, j: int)
    requires
        avoids_generated(ExpressionView::Application(es), c),
        0 <= j < es.len(),
    ensures
        avoids_generated(es[j], c),
{
    assert forall|k: nat| k >= c implies !ident_in(es[j], #[trigger] fresh_name(k)) by {
        assert(!ident_in(ExpressionView::Application(es), fresh_name(k)));
        lemma_ident_in_any_iff(es, fresh_name(k));
    }
}

/// Renaming the identifier `from` to `to`: a variable equal to `from` is
/// replaced; a binder equal to `from` shadows it and halts the rename for
/// that subtree; binder names themselves are never rewritten.
pub open spec fn spec_rename(e: ExpressionView, from: Seq<char>, to: Seq<char>) -> ExpressionView
    decreases e,
{
    match e {
        ExpressionView::Variable(i) => if i == from {
            ExpressionView::Variable(to)
        } else {
            e
        },
        ExpressionView::Lambda(i, b) => if i == from {
            e
        } else {
            ExpressionView::Lambda(i, Box::new(spec_rename(*b, from, to)))
        },
        ExpressionView::Application(es) => ExpressionView::Application(
            spec_rename_all(es, from, to),
        ),
    }
}

/// Renaming applied to each expression of a sequence.
pub open spec fn spec_rename_all(
    es: Seq<ExpressionView>,
    from: Seq<char>,
    to: Seq<char>,
) -> Seq<ExpressionView>
    decreases es,
{
    if es.len() == 0 {
        seq![]
    } else {
        seq![spec_rename(es[0], from, to)] + spec_rename_all(es.drop_first(), from, to)
    }
}

pub proof fn lemma_rename_all_index(es: Seq<ExpressionView>, from: Seq<char>, to: Seq<char>)
    ensures
        spec_rename_all(es, from, to).len() == es.len(),
        forall|i: int|
            0 <= i < es.len() ==> spec_rename_all(es, from, to)[i] == spec_rename(
                #[trigger] es[i],
                from,
                to,
            ),
    decreases es,
{
    if es.len() > 0 {
        lemma_rename_all_index(es.drop_first(), from, to);
        assert forall|i: int| 0 <= i < es.len() implies spec_rename_all(es, from, to)[i]
            == spec_rename(#[trigger] es[i], from, to) by {
            if i > 0 {
                assert(spec_rename_all(es, from, to)[i] == spec_rename_all(
                    es.drop_first(),
                    from,
                    to,
                )[i - 1]);
                assert(es.drop_first()[i - 1] == es[i]);
            }
        }
    }
}

pub proof fn lemma_rename_esize(e: ExpressionView, from: Seq<char>, to: Seq<char>)
    ensures
        esize(spec_rename(e, from, to)) == esize(e),
    decreases e,
{
    match e {
        ExpressionView::Variable(_) => {},
        ExpressionView::Lambda(i, b) => {
            if i != from {
                lemma_rename_esize(*b, from, to);
            }
        },
        ExpressionView::Application(es) => {
            lemma_rename_all_esize(es, from, to);
        },
    }
}

pub proof fn lemma_rename_all_esize(es: Seq<ExpressionView>, from: Seq<char>, to: Seq<char>)
    ensures
        esize_seq(spec_rename_all(es, from, to)) == esize_seq(es),
    decreases es,
{
    if es.len() > 0 {
        lemma_rename_esize(es[0], from, to);
        lemma_rename_all_esize(es.drop_first(), from, to);
        assert(spec_rename_all(es, from, to).drop_first() =~= spec_rename_all(
            es.drop_first(),
            from,
            to,
        ));
    }
}

/// Renaming introduces no identifier besides `to`.
pub proof fn lemma_rename_idents(
    e: ExpressionView,
    from: Seq<char>,
    to: Seq<char>,
    ident: Seq<char>,
)
    requires
        ident_in(spec_rename(e, from, to), ident),
    ensures
        ident_in(e, ident) || ident == to,
    decreases e,
{
    match e {
        ExpressionView::Variable(_) => {},
        ExpressionView::Lambda(i, b) => {
            if i != from && ident_in(spec_rename(*b, from, to), ident) {
                lemma_rename_idents(*b, from, to, ident);
            }
        },
        ExpressionView::Application(es) => {
            let renamed = spec_rename_all(es, from, to);
            lemma_rename_all_index(es, from, to);
            lemma_ident_in_any_iff(renamed, ident);
            let j = choose|j: int| 0 <= j < renamed.len() && ident_in(#[trigger] renamed[j], ident);
            lemma_rename_idents(es[j], from, to, ident);
            lemma_ident_in_any_iff(es, ident);
        },
    }
}

/// Rename the identifier `from` to `to` throughout the expression,
/// respecting shadowing: a subtree whose binder equals `from` is left
/// untouched.
#[verifier::loop_isolation(false)]
pub fn rename(expr: Expression, from: String, to: String) -> (r: Expression)
    ensures
        r@ == spec_rename(expr@, from@, to@),
    decreases esize(expr@),
{
    broadcast use crate::parser::lemma_exprs_view_push, crate::common::lemma_add_singleton, crate::common::lemma_add_associative, vstd::prelude::Seq::add_empty_right;

    let ghost pre = expr@;
    match expr {
        Expression::Variable(i) => {
            if i.eq(&from) {
                Expression::Variable(to)
            } else {
                Expression::Variable(i)
            }
        },
        Expression::Lambda(i, e) => {
            if i.eq(&from) {
                Expression::Lambda(i, e)
            } else {
                Expression::Lambda(i, Box::new(rename(*e, from, to)))
            }
        },
        Expression::Application(v) => {
            let ghost es0 = exprs_view(v@);
            proof {
                crate::parser::lemma_exprs_view(v@);
                assert forall|j: int| 0 <= j < v@.len() implies esize(
                    expr_view(#[trigger] v@[j]),
                ) < esize(pre) by {
                    lemma_esize_element(es0, j);
                }
            }
            let mut v = v;
            let mut result: Vec<Expression> = Vec::new();
            while v.len() > 0
                invariant
                    spec_rename_all(es0, from@, to@) == exprs_view(result@) + spec_rename_all(
                        exprs_view(v@),
                        from@,
                        to@,
                    ),
                    forall|j: int|
                        0 <= j < v@.len() ==> esize(expr_view(#[trigger] v@[j])) < esize(pre),
                decreases v@.len(),
            {
                let ghost vs_pre = exprs_view(v@);
                proof {
                    crate::parser::lemma_exprs_view(v@);
                }
                let element = v.remove(0);
                proof {
                    crate::parser::lemma_exprs_view(v@);
                    assert(exprs_view(v@) =~= vs_pre.drop_first());
                    assert(vs_pre[0] == expr_view(element));
                }
                let renamed = rename(element, from.clone(), to.clone());
                result.push(renamed);
            }
            let r = Expression::Application(result);
            proof {
                assert(spec_rename_all(Seq::<ExpressionView>::empty(), from@, to@) =~= Seq::<
                    ExpressionView,
                >::empty());
            }
            r
        },
    }
}

/// Renaming the binder of a lambda abstraction throughout its body. A
/// binder already equal to the new name is left alone; otherwise the new
/// name must not occur in the body, or the rename would capture it.
pub open spec fn spec_alpha(e: ExpressionView, to: Seq<char>) -> ExpressionView {
    match e {
        ExpressionView::Lambda(i, b) => if i == to {
            e
        } else {
            ExpressionView::Lambda(to, Box::new(spec_rename(*b, i, to)))
        },
        _ => e,
    }
}

/// Rename a lambda abstraction's binder to `to` throughout its body. The
/// new name must not already occur (free or bound) in the body — renaming
/// into an occupied name would capture it — and only a lambda abstraction
/// can be converted.
pub fn alpha_conversion(expr: Expression, to: String) -> (r: Expression)
    requires
        expr@ is Lambda,
        expr@ matches ExpressionView::Lambda(i, b) ==> i == to@ || !ident_in(*b, to@),
    ensures
        r@ == spec_alpha(expr@, to@),
{
    match expr {
        Expression::Lambda(i, e) => {
            if i.eq(&to) {
                Expression::Lambda(i, e)
            } else {
                let body = rename(*e, i, to.clone());
                Expression::Lambda(to, Box::new(body))
            }
        },
        _ => {
            proof {
                assert(false);
            }
            vstd::pervasive::unreached()
        },
    }
}

/// A structurally equal copy of the expression.
#[verifier::loop_isolation(false)]
pub fn clone_expr(e: &Expression) -> (r: Expression)
    ensures
        r@ == e@,
    decreases esize(e@),
{
    broadcast use crate::parser::lemma_exprs_view, crate::parser::lemma_exprs_view_push;

    match e {
        Expression::Variable(i) => Expression::Variable(i.clone()),
        Expression::Lambda(i, b) => Expression::Lambda(i.clone(), Box::new(clone_expr(b))),
        Expression::Application(v) => {
            let mut result: Vec<Expression> = Vec::new();
            let mut k: usize = 0;
            while k < v.len()
                invariant
                    k <= v.len(),
                    result@.len() == k,
                    forall|j: int| 0 <= j < k ==> expr_view(#[trigger] result@[j]) == expr_view(
                        v@[j],
                    ),
                decreases v.len() - k,
            {
                proof {
                    crate::parser::lemma_exprs_view(v@);
                    lemma_esize_element(exprs_view(v@), k as int);
                }
                let element = clone_expr(&v[k]);
                result.push(element);
                k = k + 1;
            }
            let r = Expression::Application(result);
            proof {
                crate::parser::lemma_exprs_view(v@);
                crate::parser::lemma_exprs_view(result@);
                assert(exprs_view(result@) =~= exprs_view(v@));
            }
            r
        },
    }
}

/// Capture-avoiding substitution of `v` for free occurrences of `from`,
/// with the counter value threaded through: a lambda whose binder differs
/// from `from` is first alpha-converted to the next generated name, always.
/// The result pairs the substituted expression with the counter value after
/// the step.
pub open spec fn spec_subst(
    e: ExpressionView,
    from: Seq<char>,
    v: ExpressionView,
    c: nat,
) -> (ExpressionView, nat)
    decreases esize(e), 0nat,
    via spec_subst_decreases
{
    match e {
        ExpressionView::Variable(i) => if i == from {
            (v, c)
        } else {
            (e, c)
        },
        ExpressionView::Lambda(i, b) => if i == from {
            (e, c)
        } else {
            let renamed = spec_alpha(e, fresh_name(c));
            match renamed {
                ExpressionView::Lambda(i2, b2) => {
                    let (b3, c3) = spec_subst(*b2, from, v, c + 1);
                    (ExpressionView::Lambda(i2, Box::new(b3)), c3)
                },
                _ => arbitrary(),
            }
        },
        ExpressionView::Application(es) => {
            let (es2, c2) = spec_subst_seq(es, from, v, c);
            (ExpressionView::Application(es2), c2)
        },
    }
}

#[via_fn]
proof fn spec_subst_decreases(e: ExpressionView, from: Seq<char>, v: ExpressionView, c: nat) {
    match e {
        ExpressionView::Lambda(i, b) => {
            if i != from {
                lemma_rename_esize(*b, i, fresh_name(c));
            }
        },
        _ => {},
    }
}

/// Substitution applied element-wise, threading the counter left to right.
pub open spec fn spec_subst_seq(
    es: Seq<ExpressionView>,
    from: Seq<char>,
    v: ExpressionView,
    c: nat,
) -> (Seq<ExpressionView>, nat)
    decreases esize_seq(es), es.len(),
{
    if es.len() == 0 {
        (seq![], c)
    } else {
        let (e2, c2) = spec_subst(es[0], from, v, c);
        let (rest, c3) = spec_subst_seq(es.drop_first(), from, v, c2);
        (seq![e2] + rest, c3)
    }
}

/// Substitution advances the counter by at most the expression's size.
pub proof fn lemma_subst_counter(e: ExpressionView, from: Seq<char>, v: ExpressionView, c: nat)
    ensures
        c <= spec_subst(e, from, v, c).1 <= c + esize(e),
    decreases esize(e), 0nat,
{
    match e {
        ExpressionView::Variable(_) => {},
        ExpressionView::Lambda(i, b) => {
            if i != from {
                lemma_rename_esize(*b, i, fresh_name(c));
                match spec_alpha(e, fresh_name(c)) {
                    ExpressionView::Lambda(_, b2) => {
                        lemma_subst_counter(*b2, from, v, c + 1);
                    },
                    _ => {},
                }
            }
        },
        ExpressionView::Application(es) => {
            lemma_subst_seq_counter(es, from, v, c);
        },
    }
}

pub proof fn lemma_subst_seq_counter(
    es: Seq<ExpressionView>,
    from: Seq<char>,
    v: ExpressionView,
    c: nat,
)
    ensures
        c <= spec_subst_seq(es, from, v, c).1 <= c + esize_seq(es),
    decreases esize_seq(es), es.len(),
{
    if es.len() > 0 {
        lemma_subst_counter(es[0], from, v, c);
        let c2 = spec_subst(es[0], from, v, c).1;
        lemma_subst_seq_counter(es.drop_first(), from, v, c2);
    }
}

/// Capture-avoiding substitution of `to` for free occurrences of `from` in
/// `expr`. Every lambda met on the way (whose binder is not `from` itself)
/// is alpha-converted to the next generated name before the substitution
/// descends, so a free variable of `to` can never be captured.
#[verifier::loop_isolation(false)]
pub fn substitute(expr: Expression, from: String, to: Expression, name_gen: &mut NameGen) -> (r:
    Expression)
    requires
        avoids_generated(expr@, old(name_gen).cur as nat),
        avoids_generated(to@, old(name_gen).cur as nat),
        old(name_gen).cur + esize(expr@) <= usize::MAX,
    ensures
        ({
            let (e2, c2) = spec_subst(expr@, from@, to@, old(name_gen).cur as nat);
            r@ == e2 && final(name_gen).cur == c2
        }),
    decreases esize(expr@),
{
    broadcast use crate::parser::lemma_exprs_view_push, crate::common::lemma_add_singleton, crate::common::lemma_add_associative, vstd::prelude::Seq::add_empty_right;

    let ghost pre = expr@;
    let ghost c0 = name_gen.cur as nat;
    match expr {
        Expression::Variable(i) => {
            if i.eq(&from) {
                to
            } else {
                Expression::Variable(i)
            }
        },
        Expression::Lambda(i, e) => {
            if i.eq(&from) {
                Expression::Lambda(i, e)
            } else {
                proof {
                    assert(!ident_in(pre, fresh_name(c0)));
                    lemma_esize_pos(expr_view(*e));
                }
                let fresh = name_gen.next();
                let alpha_converted = alpha_conversion(Expression::Lambda(i, e), fresh);
                match alpha_converted {
                    Expression::Lambda(i2, e2) => {
                        proof {
                            let b = spec_alpha(pre, fresh_name(c0))->Lambda_1;
                            if let ExpressionView::Lambda(gi, gb) = pre {
                                assert(gi != fresh_name(c0));
                                assert(*b == spec_rename(*gb, gi, fresh_name(c0)));
                                lemma_rename_esize(*gb, gi, fresh_name(c0));
                                assert forall|k: nat| k >= c0 + 1 implies !ident_in(
                                    *b,
                                    #[trigger] fresh_name(k),
                                ) by {
                                    if ident_in(*b, fresh_name(k)) {
                                        lemma_rename_idents(*gb, gi, fresh_name(c0), fresh_name(k));
                                        if fresh_name(k) == fresh_name(c0) {
                                            lemma_fresh_name_injective(k, c0);
                                        } else {
                                            assert(ident_in(*gb, fresh_name(k)));
                                            assert(!ident_in(pre, fresh_name(k)));
                                        }
                                    }
                                }
                                assert forall|k: nat| k >= c0 + 1 implies !ident_in(
                                    to@,
                                    #[trigger] fresh_name(k),
                                ) by {
                                    assert(k >= c0);
                                }
                            }
                        }
                        let body = substitute(*e2, from, to, name_gen);
                        Expression::Lambda(i2, Box::new(body))
                    },
                    _ => {
                        proof {
                            assert(false);
                        }
                        vstd::pervasive::unreached()
                    },
                }
            }
        },
        Expression::Application(v) => {
            let ghost es0 = exprs_view(v@);
            proof {
                crate::parser::lemma_exprs_view(v@);
                assert forall|j: int| 0 <= j < v@.len() implies esize(
                    expr_view(#[trigger] v@[j]),
                ) < esize(pre) && avoids_generated(expr_view(v@[j]), c0) by {
                    lemma_esize_element(es0, j);
                    lemma_avoids_element(es0, c0, j);
                }
            }
            let mut v = v;
            let mut result: Vec<Expression> = Vec::new();
            while v.len() > 0
                invariant
                    avoids_generated(to@, name_gen.cur as nat),
                    forall|j: int|
                        0 <= j < v@.len() ==> avoids_generated(
                            expr_view(#[trigger] v@[j]),
                            name_gen.cur as nat,
                        ),
                    forall|j: int|
                        0 <= j < v@.len() ==> esize(expr_view(#[trigger] v@[j])) < esize(pre),
                    name_gen.cur + esize_seq(exprs_view(v@)) <= usize::MAX,
                    spec_subst_seq(es0, from@, to@, c0) == ({
                        let (rest, c_end) = spec_subst_seq(
                            exprs_view(v@),
                            from@,
                            to@,
                            name_gen.cur as nat,
                        );
                        (exprs_view(result@) + rest, c_end)
                    }),
                decreases v@.len(),
            {
                let ghost vs_pre = exprs_view(v@);
                let ghost c_pre = name_gen.cur as nat;
                proof {
                    crate::parser::lemma_exprs_view(v@);
                }
                let element = v.remove(0);
                proof {
                    crate::parser::lemma_exprs_view(v@);
                    assert(exprs_view(v@) =~= vs_pre.drop_first());
                    assert(vs_pre[0] == expr_view(element));
                }
                let to_copy = clone_expr(&to);
                let substituted = substitute(element, from.clone(), to_copy, name_gen);
                result.push(substituted);
                proof {
                    let (e2s, c2s) = spec_subst(vs_pre[0], from@, to@, c_pre);
                    lemma_subst_counter(vs_pre[0], from@, to@, c_pre);
                    assert forall|j: int| 0 <= j < v@.len() implies avoids_generated(
                        expr_view(#[trigger] v@[j]),
                        name_gen.cur as nat,
                    ) by {
                        assert(avoids_generated(expr_view(v@[j]), c_pre));
                        assert forall|k: nat| k >= name_gen.cur as nat implies !ident_in(
                            expr_view(v@[j]),
                            #[trigger] fresh_name(k),
                        ) by {
                            assert(k >= c_pre);
                        }
                    }
                    assert forall|k: nat| k >= name_gen.cur as nat implies !ident_in(
                        to@,
                        #[trigger] fresh_name(k),
                    ) by {
                        assert(k >= c_pre);
                    }
                }
            }
            let r = Expression::Application(result);
            proof {
                assert(exprs_view(result@) + Seq::<ExpressionView>::empty() =~= exprs_view(
                    result@,
                ));
            }
            r
        },
    }
}

/// Whether the identifier occurs anywhere in the expression, free, bound or
/// as a binder.
#[verifier::loop_isolation(false)]
pub fn identifier_exists(expr: &Expression, ident: String) -> (r: bool)
    ensures
        r == ident_in(expr@, ident@),
    decreases esize(expr@),
{
    broadcast use crate::parser::lemma_exprs_view;

    match expr {
        Expression::Variable(i) => i.eq(&ident),
        Expression::Lambda(i, b) => {
            if i.eq(&ident) {
                true
            } else {
                identifier_exists(b, ident)
            }
        },
        Expression::Application(v) => {
            let ghost es = exprs_view(v@);
            let mut k: usize = 0;
            while k < v.len()
                invariant
                    k <= v.len(),
                    forall|j: int| 0 <= j < k ==> !ident_in(#[trigger] es[j], ident@),
                decreases v.len() - k,
            {
                proof {
                    crate::parser::lemma_exprs_view(v@);
                    lemma_esize_element(es, k as int);
                }
                if identifier_exists(&v[k], ident.clone()) {
                    proof {
                        lemma_ident_in_any_iff(es, ident@);
                    }
                    return true;
                }
                k = k + 1;
            }
            proof {
                lemma_ident_in_any_iff(es, ident@);
            }
            false
        },
    }
}

/// One normal-order (leftmost-outermost) beta-reduction step, with the
/// counter threaded through. An application whose head is a lambda peels one
/// argument; any other application reduces its leftmost reducible element; a
/// lambda delegates to its body; a variable is in normal form. `None` means
/// no redex remains.
pub open spec fn spec_beta(e: ExpressionView, c: nat) -> (Option<ExpressionView>, nat)
    decreases esize(e), 0nat,
{
    match e {
        ExpressionView::Application(es) => {
            match es[0] {
                ExpressionView::Lambda(i, b) => {
                    let (s, c2) = spec_subst(*b, i, es[1], c);
                    let es2 = es.update(0, s).remove(1);
                    (
                        Some(
                            if es2.len() == 1 {
                                es2[0]
                            } else {
                                ExpressionView::Application(es2)
                            },
                        ),
                        c2,
                    )
                },
                _ => {
                    let (r, c2) = spec_beta_seq(es, c);
                    (
                        match r {
                            Some(es2) => Some(ExpressionView::Application(es2)),
                            None => None,
                        },
                        c2,
                    )
                },
            }
        },
        ExpressionView::Lambda(_, b) => spec_beta(*b, c),
        ExpressionView::Variable(_) => (None, c),
    }
}

/// Reduce the leftmost reducible element of the sequence, if any, threading
/// the counter left to right.
pub open spec fn spec_beta_seq(es: Seq<ExpressionView>, c: nat) -> (
    Option<Seq<ExpressionView>>,
    nat,
)
    decreases esize_seq(es), es.len(),
{
    if es.len() == 0 {
        (None, c)
    } else {
        let (r0, c0) = spec_beta(es[0], c);
        match r0 {
            Some(e0) => (Some(seq![e0] + es.drop_first()), c0),
            None => {
                let (r1, c1) = spec_beta_seq(es.drop_first(), c0);
                (
                    match r1 {
                        Some(rest) => Some(seq![es[0]] + rest),
                        None => None,
                    },
                    c1,
                )
            },
        }
    }
}

/// A step that finds no redex consumes no generated names: the counter is
/// unchanged.
pub proof fn lemma_beta_none_counter(e: ExpressionView, c: nat)
    ensures
        spec_beta(e, c).0 is None ==> spec_beta(e, c).1 == c,
    decreases esize(e), 0nat,
{
    match e {
        ExpressionView::Application(es) => {
            match es[0] {
                ExpressionView::Lambda(_, _) => {},
                _ => {
                    lemma_beta_seq_none_counter(es, c);
                },
            }
        },
        ExpressionView::Lambda(_, b) => {
            lemma_beta_none_counter(*b, c);
        },
        ExpressionView::Variable(_) => {},
    }
}

pub proof fn lemma_beta_seq_none_counter(es: Seq<ExpressionView>, c: nat)
    ensures
        spec_beta_seq(es, c).0 is None ==> spec_beta_seq(es, c).1 == c,
    decreases esize_seq(es), es.len(),
{
    if es.len() > 0 {
        lemma_beta_none_counter(es[0], c);
        let (r0, c0) = spec_beta(es[0], c);
        if r0 is None {
            lemma_beta_seq_none_counter(es.drop_first(), c0);
        }
    }
}

/// Perform exactly one normal-order beta-reduction step, or return `None`
/// when the expression has reached normal form. An application headed by a
/// lambda peels one argument per step; otherwise the leftmost reducible
/// element is reduced; reduction proceeds inside a binder's body by reducing
/// the body directly. A reduced term is well formed and still avoids the
/// generator's remaining names, so a reduction loop may feed each step's
/// output straight back in with the same generator.
#[verifier::loop_isolation(false)]
#[verifier::spinoff_prover]
#[verifier::rlimit(100)]
pub fn beta_reduce(expr: Expression, name_gen: &mut NameGen) -> (r: Option<Expression>)
    requires
        well_formed(expr@),
        avoids_generated(expr@, old(name_gen).cur as nat),
        old(name_gen).cur + esize(expr@) <= usize::MAX,
    ensures
        ({
            let (ro, c2) = spec_beta(expr@, old(name_gen).cur as nat);
            final(name_gen).cur == c2 && (match r {
                Some(e) => ro == Some(e@) && well_formed(e@) && avoids_generated(e@, c2 as nat),
                None => ro is None,
            })
        }),
    decreases esize(expr@),
{
    broadcast use crate::parser::lemma_exprs_view_push, crate::common::lemma_add_singleton, crate::common::lemma_add_associative, vstd::prelude::Seq::add_empty_right;

    let ghost pre = expr@;
    let ghost c0 = name_gen.cur as nat;
    proof {
        lemma_beta_step_preserves(pre, c0);
    }
    match expr {
        Expression::Application(v) => {
            let ghost es0 = exprs_view(v@);
            proof {
                crate::parser::lemma_exprs_view(v@);
            }
            let mut v = v;
            let head = v.remove(0);
            proof {
                crate::parser::lemma_exprs_view(v@);
                assert(exprs_view(v@) =~= es0.drop_first());
                assert(es0[0] == expr_view(head));
            }
            match head {
                Expression::Lambda(i, e) => {
                    let argument = v.remove(0);
                    proof {
                        crate::parser::lemma_exprs_view(v@);
                        assert(exprs_view(v@) =~= es0.drop_first().drop_first());
                        assert(es0.drop_first()[0] == expr_view(argument));
                        assert(es0[1] == expr_view(argument));
                        lemma_avoids_element(es0, c0, 0);
                        lemma_avoids_lambda_body(i@, expr_view(*e), c0);
                        lemma_avoids_element(es0, c0, 1);
                        lemma_esize_element(es0, 0);
                    }
                    let substituted = substitute(*e, i, argument, name_gen);
                    let ghost s = expr_view(substituted);
                    v.insert(0, substituted);
                    proof {
                        crate::parser::lemma_exprs_view(v@);
                        assert(exprs_view(v@) =~= es0.update(0, s).remove(1));
                    }
                    if v.len() == 1 {
                        let single = v.remove(0);
                        Some(single)
                    } else {
                        Some(Expression::Application(v))
                    }
                },
                other => {
                    v.insert(0, other);
                    proof {
                        crate::parser::lemma_exprs_view(v@);
                        assert(exprs_view(v@) =~= es0);
                        assert(es0.skip(0) =~= es0);
                    }
                    let mut k: usize = 0;
                    while k < v.len()
                        invariant
                            exprs_view(v@) == es0,
                            v@.len() == es0.len(),
                            k <= v@.len(),
                            name_gen.cur as nat == c0,
                            ({
                                let (rk, ck) = spec_beta_seq(es0.skip(k as int), c0);
                                let (rf, cf) = spec_beta_seq(es0, c0);
                                cf == ck && (match rk {
                                    Some(rest) => rf == Some(es0.take(k as int) + rest),
                                    None => rf is None,
                                })
                            }),
                        decreases v@.len() - k,
                    {
                        let ghost tail = es0.skip(k as int);
                        proof {
                            crate::parser::lemma_exprs_view(v@);
                            assert(expr_view(v@[k as int]) == es0[k as int]);
                            assert(tail[0] == es0[k as int]);
                            assert(tail.drop_first() =~= es0.skip(k as int + 1));
                            lemma_esize_element(es0, k as int);
                            lemma_avoids_element(es0, c0, k as int);
                        }
                        let cloned = clone_expr(&v[k]);
                        let reduced = beta_reduce(cloned, name_gen);
                        match reduced {
                            Some(e2) => {
                                let _ = v.remove(k);
                                v.insert(k, e2);
                                proof {
                                    crate::parser::lemma_exprs_view(v@);
                                    let e2v = expr_view(e2);
                                    assert(exprs_view(v@) =~= es0.update(k as int, e2v));
                                    assert(es0.take(k as int) + (seq![e2v] + es0.skip(
                                        k as int + 1,
                                    )) =~= es0.update(k as int, e2v));
                                }
                                return Some(Expression::Application(v));
                            },
                            None => {
                                proof {
                                    lemma_beta_none_counter(es0[k as int], c0);
                                    let (r_next, c_next) = spec_beta_seq(
                                        es0.skip(k as int + 1),
                                        c0,
                                    );
                                    match r_next {
                                        Some(rest) => {
                                            assert(es0.take(k as int) + (seq![es0[k as int]]
                                                + rest) =~= es0.take(k as int + 1) + rest);
                                        },
                                        None => {},
                                    }
                                }
                                k = k + 1;
                            },
                        }
                    }
                    proof {
                        assert(es0.skip(v@.len() as int) =~= Seq::<ExpressionView>::empty());
                    }
                    None
                },
            }
        },
        Expression::Lambda(i, e) => {
            proof {
                lemma_avoids_lambda_body(i@, expr_view(*e), c0);
            }
            beta_reduce(*e, name_gen)
        },
        Expression::Variable(_) => None,
    }
}

pub proof fn lemma_rename_wf(e: ExpressionView, from: Seq<char>, to: Seq<char>)
    requires
        well_formed(e),
    ensures
        well_formed(spec_rename(e, from, to)),
    decreases e,
{
    match e {
        ExpressionView::Variable(_) => {},
        ExpressionView::Lambda(i, b) => {
            if i != from {
                lemma_rename_wf(*b, from, to);
            }
        },
        ExpressionView::Application(es) => {
            lemma_rename_all_index(es, from, to);
            lemma_rename_all_wf(es, from, to);
        },
    }
}

pub proof fn lemma_rename_all_wf(es: Seq<ExpressionView>, from: Seq<char>, to: Seq<char>)
    requires
        crate::parser::all_well_formed(es),
    ensures
        crate::parser::all_well_formed(spec_rename_all(es, from, to)),
    decreases es,
{
    lemma_rename_all_index(es, from, to);
    let renamed = spec_rename_all(es, from, to);
    assert forall|j: int| 0 <= j < renamed.len() implies well_formed(#[trigger] renamed[j]) by {
        assert(well_formed(es[j]));
        lemma_rename_wf(es[j], from, to);
    }
}

/// Substitution preserves the structural invariant: with a well-formed term
/// substituted into a well-formed expression, every application of the
/// result still has at least two elements.
pub proof fn lemma_subst_wf(e: ExpressionView, from: Seq<char>, v: ExpressionView, c: nat)
    requires
        well_formed(e),
        well_formed(v),
    ensures
        well_formed(spec_subst(e, from, v, c).0),
    decreases esize(e), 0nat,
{
    match e {
        ExpressionView::Variable(_) => {},
        ExpressionView::Lambda(i, b) => {
            if i != from {
                lemma_rename_esize(*b, i, fresh_name(c));
                match spec_alpha(e, fresh_name(c)) {
                    ExpressionView::Lambda(_, b2) => {
                        if i != fresh_name(c) {
                            lemma_rename_wf(*b, i, fresh_name(c));
                        }
                        lemma_subst_wf(*b2, from, v, c + 1);
                    },
                    _ => {},
                }
            }
        },
        ExpressionView::Application(es) => {
            lemma_subst_seq_wf(es, from, v, c);
        },
    }
}

pub proof fn lemma_subst_seq_wf(
    es: Seq<ExpressionView>,
    from: Seq<char>,
    v: ExpressionView,
    c: nat,
)
    requires
        crate::parser::all_well_formed(es),
        well_formed(v),
    ensures
        ({
            let (es2, c2) = spec_subst_seq(es, from, v, c);
            es2.len() == es.len() && crate::parser::all_well_formed(es2)
        }),
    decreases esize_seq(es), es.len(),
{
    if es.len() > 0 {
        assert(well_formed(es[0]));
        lemma_subst_wf(es[0], from, v, c);
        let (e2, c2) = spec_subst(es[0], from, v, c);
        assert forall|j: int| 0 <= j < es.drop_first().len() implies well_formed(
            #[trigger] es.drop_first()[j],
        ) by {
            assert(es.drop_first()[j] == es[j + 1]);
        }
        lemma_subst_seq_wf(es.drop_first(), from, v, c2);
        let (rest, _) = spec_subst_seq(es.drop_first(), from, v, c2);
        let es2 = seq![e2] + rest;
        assert forall|j: int| 0 <= j < es2.len() implies well_formed(#[trigger] es2[j]) by {
            if j > 0 {
                assert(es2[j] == rest[j - 1]);
            }
        }
    }
}

/// A reduction step preserves the structural invariant: whatever a
/// well-formed expression reduces to is well formed again.
pub proof fn lemma_beta_wf(e: ExpressionView, c: nat)
    requires
        well_formed(e),
    ensures
        spec_beta(e, c).0 matches Some(r) ==> well_formed(r),
    decreases esize(e), 0nat,
{
    match e {
        ExpressionView::Application(es) => {
            match es[0] {
                ExpressionView::Lambda(i, b) => {
                    assert(well_formed(es[0]));
                    assert(well_formed(es[1]));
                    lemma_subst_wf(*b, i, es[1], c);
                    let (s, _) = spec_subst(*b, i, es[1], c);
                    let es2 = es.update(0, s).remove(1);
                    assert(es2.len() == es.len() - 1);
                    assert forall|j: int| 0 <= j < es2.len() implies well_formed(
                        #[trigger] es2[j],
                    ) by {
                        if j == 0 {
                            assert(es2[0] == s);
                        } else {
                            assert(es2[j] == es[j + 1]);
                        }
                    }
                },
                _ => {
                    lemma_beta_seq_wf(es, c);
                },
            }
        },
        ExpressionView::Lambda(_, b) => {
            lemma_beta_wf(*b, c);
        },
        ExpressionView::Variable(_) => {},
    }
}

pub proof fn lemma_beta_seq_wf(es: Seq<ExpressionView>, c: nat)
    requires
        crate::parser::all_well_formed(es),
    ensures
        ({
            let (r, c2) = spec_beta_seq(es, c);
            r matches Some(es2) ==> es2.len() == es.len() && crate::parser::all_well_formed(es2)
        }),
    decreases esize_seq(es), es.len(),
{
    if es.len() > 0 {
        assert(well_formed(es[0]));
        lemma_beta_wf(es[0], c);
        let (r0, c0) = spec_beta(es[0], c);
        match r0 {
            Some(e0) => {
                let es2 = seq![e0] + es.drop_first();
                assert forall|j: int| 0 <= j < es2.len() implies well_formed(
                    #[trigger] es2[j],
                ) by {
                    if j > 0 {
                        assert(es2[j] == es[j]);
                    }
                }
            },
            None => {
                assert forall|j: int| 0 <= j < es.drop_first().len() implies well_formed(
                    #[trigger] es.drop_first()[j],
                ) by {
                    assert(es.drop_first()[j] == es[j + 1]);
                }
                lemma_beta_seq_wf(es.drop_first(), c0);
                let (r1, _) = spec_beta_seq(es.drop_first(), c0);
                match r1 {
                    Some(rest) => {
                        let es2 = seq![es[0]] + rest;
                        assert forall|j: int| 0 <= j < es2.len() implies well_formed(
                            #[trigger] es2[j],
                        ) by {
                            if j > 0 {
                                assert(es2[j] == rest[j - 1]);
                            }
                        }
                    },
                    None => {},
                }
            },
        }
    }
}

/// The counter never moves backwards through a reduction step.
pub proof fn lemma_beta_counter_lower(e: ExpressionView, c: nat)
    ensures
        c <= spec_beta(e, c).1,
    decreases esize(e), 0nat,
{
    match e {
        ExpressionView::Application(es) => {
            match es[0] {
                ExpressionView::Lambda(i, b) => {
                    lemma_subst_counter(*b, i, es[1], c);
                },
                _ => {
                    lemma_beta_seq_counter_lower(es, c);
                },
            }
        },
        ExpressionView::Lambda(_, b) => {
            lemma_beta_counter_lower(*b, c);
        },
        ExpressionView::Variable(_) => {},
    }
}

pub proof fn lemma_beta_seq_counter_lower(es: Seq<ExpressionView>, c: nat)
    ensures
        c <= spec_beta_seq(es, c).1,
    decreases esize_seq(es), es.len(),
{
    if es.len() > 0 {
        lemma_beta_counter_lower(es[0], c);
        let (r0, c0) = spec_beta(es[0], c);
        if r0 is None {
            lemma_beta_seq_counter_lower(es.drop_first(), c0);
        }
    }
}

/// Avoidance is monotone in the counter: names from a later counter on are
/// a subset of the names from an earlier one on.
pub proof fn lemma_avoids_monotone(e: ExpressionView, c: nat, c2: nat)
    requires
        avoids_generated(e, c),
        c <= c2,
    ensures
        avoids_generated(e, c2),
{
    assert forall|k: nat| k >= c2 implies !ident_in(e, #[trigger] fresh_name(k)) by {
        assert(k >= c);
    }
}

/// Substitution preserves avoidance: when the expression and the
/// substituted term avoid every name from the current counter on, the
/// result avoids every name from the advanced counter on.
pub proof fn lemma_subst_avoids(e: ExpressionView, from: Seq<char>, v: ExpressionView, c: nat)
    requires
        avoids_generated(e, c),
        avoids_generated(v, c),
    ensures
        ({
            let (e2, c2) = spec_subst(e, from, v, c);
            avoids_generated(e2, c2)
        }),
    decreases esize(e), 0nat,
{
    let (e2, c2) = spec_subst(e, from, v, c);
    lemma_subst_counter(e, from, v, c);
    match e {
        ExpressionView::Variable(_) => {},
        ExpressionView::Lambda(i, b) => {
            if i != from {
                assert(!ident_in(e, fresh_name(c)));
                lemma_rename_esize(*b, i, fresh_name(c));
                match spec_alpha(e, fresh_name(c)) {
                    ExpressionView::Lambda(i2, b2) => {
                        assert(i2 == fresh_name(c));
                        assert forall|k: nat| k >= c + 1 implies !ident_in(
                            *b2,
                            #[trigger] fresh_name(k),
                        ) by {
                            if ident_in(*b2, fresh_name(k)) {
                                lemma_rename_idents(*b, i, fresh_name(c), fresh_name(k));
                                if fresh_name(k) == fresh_name(c) {
                                    lemma_fresh_name_injective(k, c);
                                } else {
                                    assert(ident_in(*b, fresh_name(k)));
                                    assert(!ident_in(e, fresh_name(k)));
                                }
                            }
                        }
                        lemma_avoids_monotone(v, c, c + 1);
                        lemma_subst_avoids(*b2, from, v, c + 1);
                        let (b3, c3) = spec_subst(*b2, from, v, c + 1);
                        lemma_subst_counter(*b2, from, v, c + 1);
                        assert forall|k: nat| k >= c3 implies !ident_in(
                            e2,
                            #[trigger] fresh_name(k),
                        ) by {
                            if fresh_name(k) == fresh_name(c) {
                                lemma_fresh_name_injective(k, c);
                            }
                            assert(!ident_in(b3, fresh_name(k)));
                        }
                    },
                    _ => {},
                }
            }
        },
        ExpressionView::Application(es) => {
            assert forall|j: int| 0 <= j < es.len() implies avoids_generated(
                #[trigger] es[j],
                c,
            ) by {
                lemma_avoids_element(es, c, j);
            }
            lemma_subst_seq_avoids(es, from, v, c);
            let (es2, c2s) = spec_subst_seq(es, from, v, c);
            assert forall|k: nat| k >= c2s implies !ident_in(e2, #[trigger] fresh_name(k)) by {
                lemma_ident_in_any_iff(es2, fresh_name(k));
                assert(forall|j: int| 0 <= j < es2.len() ==> !ident_in(
                    #[trigger] es2[j],
                    fresh_name(k),
                ));
            }
        },
    }
}

pub proof fn lemma_subst_seq_avoids(
    es: Seq<ExpressionView>,
    from: Seq<char>,
    v: ExpressionView,
    c: nat,
)
    requires
        forall|j: int| 0 <= j < es.len() ==> avoids_generated(#[trigger] es[j], c),
        avoids_generated(v, c),
    ensures
        ({
            let (es2, c2) = spec_subst_seq(es, from, v, c);
            forall|j: int| 0 <= j < es2.len() ==> avoids_generated(#[trigger] es2[j], c2)
        }),
    decreases esize_seq(es), es.len(),
{
    if es.len() > 0 {
        lemma_subst_avoids(es[0], from, v, c);
        lemma_subst_counter(es[0], from, v, c);
        let (e2, c2a) = spec_subst(es[0], from, v, c);
        assert forall|j: int| 0 <= j < es.drop_first().len() implies avoids_generated(
            #[trigger] es.drop_first()[j],
            c2a,
        ) by {
            assert(es.drop_first()[j] == es[j + 1]);
            lemma_avoids_monotone(es[j + 1], c, c2a);
        }
        lemma_avoids_monotone(v, c, c2a);
        lemma_subst_seq_avoids(es.drop_first(), from, v, c2a);
        lemma_subst_seq_counter(es.drop_first(), from, v, c2a);
        let (rest, c2b) = spec_subst_seq(es.drop_first(), from, v, c2a);
        let es2 = seq![e2] + rest;
        assert forall|j: int| 0 <= j < es2.len() implies avoids_generated(
            #[trigger] es2[j],
            c2b,
        ) by {
            if j == 0 {
                lemma_avoids_monotone(e2, c2a, c2b);
            } else {
                assert(es2[j] == rest[j - 1]);
            }
        }
    }
}

/// A reduction step preserves avoidance: the result still avoids every name
/// the generator will hand out from the advanced counter on.
pub proof fn lemma_beta_avoids(e: ExpressionView, c: nat)
    requires
        well_formed(e),
        avoids_generated(e, c),
    ensures
        ({
            let (r, c2) = spec_beta(e, c);
            r matches Some(e2) ==> avoids_generated(e2, c2)
        }),
    decreases esize(e), 0nat,
{
    let (r, c2) = spec_beta(e, c);
    match e {
        ExpressionView::Application(es) => {
            match es[0] {
                ExpressionView::Lambda(i, b) => {
                    lemma_avoids_element(es, c, 0);
                    lemma_avoids_lambda_body(i, *b, c);
                    lemma_avoids_element(es, c, 1);
                    lemma_subst_avoids(*b, i, es[1], c);
                    lemma_subst_counter(*b, i, es[1], c);
                    let (s, c2s) = spec_subst(*b, i, es[1], c);
                    let es2 = es.update(0, s).remove(1);
                    assert forall|j: int| 0 <= j < es2.len() implies avoids_generated(
                        #[trigger] es2[j],
                        c2s,
                    ) by {
                        if j == 0 {
                            assert(es2[0] == s);
                        } else {
                            assert(es2[j] == es[j + 1]);
                            lemma_avoids_element(es, c, j + 1);
                            lemma_avoids_monotone(es[j + 1], c, c2s);
                        }
                    }
                    if es2.len() != 1 {
                        assert forall|k: nat| k >= c2s implies !ident_in(
                            ExpressionView::Application(es2),
                            #[trigger] fresh_name(k),
                        ) by {
                            lemma_ident_in_any_iff(es2, fresh_name(k));
                            assert(forall|j: int| 0 <= j < es2.len() ==> !ident_in(
                                #[trigger] es2[j],
                                fresh_name(k),
                            ));
                        }
                    }
                },
                _ => {
                    assert forall|j: int| 0 <= j < es.len() implies avoids_generated(
                        #[trigger] es[j],
                        c,
                    ) by {
                        lemma_avoids_element(es, c, j);
                    }
                    lemma_beta_seq_avoids(es, c);
                    let (r0, c2s) = spec_beta_seq(es, c);
                    match r0 {
                        Some(es2) => {
                            assert forall|k: nat| k >= c2s implies !ident_in(
                                ExpressionView::Application(es2),
                                #[trigger] fresh_name(k),
                            ) by {
                                lemma_ident_in_any_iff(es2, fresh_name(k));
                                assert(forall|j: int| 0 <= j < es2.len() ==> !ident_in(
                                    #[trigger] es2[j],
                                    fresh_name(k),
                                ));
                            }
                        },
                        None => {},
                    }
                },
            }
        },
        ExpressionView::Lambda(i, b) => {
            lemma_avoids_lambda_body(i, *b, c);
            lemma_beta_avoids(*b, c);
        },
        ExpressionView::Variable(_) => {},
    }
}

pub proof fn lemma_beta_seq_avoids(es: Seq<ExpressionView>, c: nat)
    requires
        crate::parser::all_well_formed(es),
        forall|j: int| 0 <= j < es.len() ==> avoids_generated(#[trigger] es[j], c),
    ensures
        ({
            let (r, c2) = spec_beta_seq(es, c);
            r matches Some(es2) ==> forall|j: int|
                0 <= j < es2.len() ==> avoids_generated(#[trigger] es2[j], c2)
        }),
    decreases esize_seq(es), es.len(),
{
    if es.len() > 0 {
        assert(well_formed(es[0]));
        lemma_beta_avoids(es[0], c);
        lemma_beta_counter_lower(es[0], c);
        let (r0, c0) = spec_beta(es[0], c);
        match r0 {
            Some(e0) => {
                let es2 = seq![e0] + es.drop_first();
                assert forall|j: int| 0 <= j < es2.len() implies avoids_generated(
                    #[trigger] es2[j],
                    c0,
                ) by {
                    if j > 0 {
                        assert(es2[j] == es[j]);
                        lemma_avoids_monotone(es[j], c, c0);
                    }
                }
            },
            None => {
                lemma_beta_none_counter(es[0], c);
                assert forall|j: int| 0 <= j < es.drop_first().len() implies avoids_generated(
                    #[trigger] es.drop_first()[j],
                    c0,
                ) && well_formed(es.drop_first()[j]) by {
                    assert(es.drop_first()[j] == es[j + 1]);
                    assert(well_formed(es[j + 1]));
                }
                lemma_beta_seq_avoids(es.drop_first(), c0);
                lemma_beta_seq_counter_lower(es.drop_first(), c0);
                let (r1, c1) = spec_beta_seq(es.drop_first(), c0);
                match r1 {
                    Some(rest) => {
                        let es2 = seq![es[0]] + rest;
                        assert forall|j: int| 0 <= j < es2.len() implies avoids_generated(
                            #[trigger] es2[j],
                            c1,
                        ) by {
                            if j == 0 {
                                lemma_avoids_monotone(es[0], c, c1);
                            } else {
                                assert(es2[j] == rest[j - 1]);
                            }
                        }
                    },
                    None => {},
                }
            },
        }
    }
}

/// One reduction step keeps everything the reducer relies on: a well-formed
/// expression that avoids the generator's names from the current counter on
/// reduces, if it reduces at all, to a well-formed expression that avoids
/// them from the advanced counter on. The reduction loop may therefore feed
/// each step's output straight back in.
pub proof fn lemma_beta_step_preserves(e: ExpressionView, c: nat)
    requires
        well_formed(e),
        avoids_generated(e, c),
    ensures
        ({
            let (r, c2) = spec_beta(e, c);
            r matches Some(e2) ==> well_formed(e2) && avoids_generated(e2, c2)
        }),
{
    lemma_beta_wf(e, c);
    lemma_beta_avoids(e, c);
}

/// Substituting a term for a variable that is exactly that variable yields
/// the substituted term itself, whatever the term: `substitute` on
/// `Variable(x)` with `from == x` returns `v`, and consumes no generated
/// names.
pub proof fn lemma_substitute_variable(x: Seq<char>, v: ExpressionView, c: nat)
    ensures
        spec_subst(ExpressionView::Variable(x), x, v, c) == (v, c),
{
}

/// A binder equal to the substituted name shadows it: `substitute` on
/// `Lambda(x, b)` with `from == x` returns the lambda unchanged, whatever
/// the term, and consumes no generated names.
pub proof fn lemma_substitute_shadowed(x: Seq<char>, b: ExpressionView, v: ExpressionView, c: nat)
    ensures
        spec_subst(ExpressionView::Lambda(x, Box::new(b)), x, v, c) == (
            ExpressionView::Lambda(x, Box::new(b)),
            c,
        ),
{
}

/// No identifier of the expression starts with `#`: true of everything the
/// parser can produce, since `#` is not alphanumeric.
pub open spec fn no_generated_names(e: ExpressionView) -> bool
    decreases e,
{
    match e {
        ExpressionView::Variable(i) => i.len() == 0 || i[0] != '#',
        ExpressionView::Lambda(i, b) => (i.len() == 0 || i[0] != '#') && no_generated_names(*b),
        ExpressionView::Application(es) => no_generated_names_all(es),
    }
}

/// No identifier of any expression of the sequence starts with `#`.
pub open spec fn no_generated_names_all(es: Seq<ExpressionView>) -> bool
    decreases es,
{
    es.len() == 0 || (no_generated_names(es[0]) && no_generated_names_all(es.drop_first()))
}

pub proof fn lemma_no_generated_not_ident(e: ExpressionView, id: Seq<char>)
    requires
        no_generated_names(e),
        id.len() > 0,
        id[0] == '#',
    ensures
        !ident_in(e, id),
    decreases e,
{
    match e {
        ExpressionView::Variable(_) => {},
        ExpressionView::Lambda(_, b) => {
            lemma_no_generated_not_ident(*b, id);
        },
        ExpressionView::Application(es) => {
            lemma_no_generated_not_ident_all(es, id);
        },
    }
}

pub proof fn lemma_no_generated_not_ident_all(es: Seq<ExpressionView>, id: Seq<char>)
    requires
        no_generated_names_all(es),
        id.len() > 0,
        id[0] == '#',
    ensures
        !ident_in_any(es, id),
    decreases es,
{
    if es.len() > 0 {
        lemma_no_generated_not_ident(es[0], id);
        lemma_no_generated_not_ident_all(es.drop_first(), id);
    }
}

/// An expression none of whose identifiers starts with `#` avoids every
/// name the generator can produce, whatever the counter stands at.
pub proof fn lemma_no_generated_avoids(e: ExpressionView, c: nat)
    requires
        no_generated_names(e),
    ensures
        avoids_generated(e, c),
{
    assert forall|k: nat| k >= c implies !ident_in(e, #[trigger] fresh_name(k)) by {
        lemma_dec_digits_len(k);
        assert(fresh_name(k)[0] == '#');
        lemma_no_generated_not_ident(e, fresh_name(k));
    }
}

/// Whether any identifier of the expression starts with `#`, the generated
/// names' private alphabet. When none does, the expression is safe to hand
/// to `substitute` or `beta_reduce` with any generator state.
#[verifier::loop_isolation(false)]
pub fn uses_no_generated_names(expr: &Expression) -> (r: bool)
    ensures
        r == no_generated_names(expr@),
    decreases esize(expr@),
{
    broadcast use vstd::string::group_string_axioms;

    match expr {
        Expression::Variable(i) => !name_is_generated(i),
        Expression::Lambda(i, b) => {
            if name_is_generated(i) {
                false
            } else {
                uses_no_generated_names(b)
            }
        },
        Expression::Application(v) => {
            let ghost es = exprs_view(v@);
            proof {
                crate::parser::lemma_exprs_view(v@);
            }
            let mut k: usize = 0;
            while k < v.len()
                invariant
                    k <= v@.len(),
                    forall|j: int| 0 <= j < k ==> no_generated_names(#[trigger] es[j]),
                decreases v@.len() - k,
            {
                proof {
                    crate::parser::lemma_exprs_view(v@);
                    lemma_esize_element(es, k as int);
                }
                if !uses_no_generated_names(&v[k]) {
                    proof {
                        lemma_no_generated_names_any(es, k as int);
                    }
                    return false;
                }
                k = k + 1;
            }
            proof {
                crate::parser::lemma_exprs_view(v@);
                lemma_no_generated_names_all_iff(es);
            }
            true
        },
    }
}

pub proof fn lemma_no_generated_names_any(es: Seq<ExpressionView>, j: int)
    requires
        0 <= j < es.len(),
        !no_generated_names(es[j]),
    ensures
        !no_generated_names_all(es),
    decreases es,
{
    if j > 0 {
        lemma_no_generated_names_any(es.drop_first(), j - 1);
    }
}

pub proof fn lemma_no_generated_names_all_iff(es: Seq<ExpressionView>)
    requires
        forall|j: int| 0 <= j < es.len() ==> no_generated_names(#[trigger] es[j]),
    ensures
        no_generated_names_all(es),
    decreases es,
{
    if es.len() > 0 {
        assert forall|j: int| 0 <= j < es.drop_first().len() implies no_generated_names(
            #[trigger] es.drop_first()[j],
        ) by {
            assert(es.drop_first()[j] == es[j + 1]);
        }
        lemma_no_generated_names_all_iff(es.drop_first());
    }
}

/// An expression whose identifiers are all alphanumeric uses no generated
/// names: `#` is not alphanumeric.
pub proof fn lemma_alphanumeric_no_generated(e: ExpressionView)
    requires
        crate::parser::expr_identifiers_alphanumeric(e),
    ensures
        no_generated_names(e),
    decreases e,
{
    match e {
        ExpressionView::Variable(_) => {},
        ExpressionView::Lambda(_, b) => {
            lemma_alphanumeric_no_generated(*b);
        },
        ExpressionView::Application(es) => {
            assert forall|j: int| 0 <= j < es.len() implies no_generated_names(
                #[trigger] es[j],
            ) by {
                lemma_alphanumeric_no_generated(es[j]);
            }
            lemma_no_generated_names_all_iff(es);
        },
    }
}

/// The three stages compose: lexing any finite character sequence from a
/// fresh lexer and parsing the token stream successfully always yields a
/// term that is well formed and avoids every generated name, whatever the
/// counter stands at — exactly what a reduction step requires, and exactly
/// what it preserves.
pub proof fn lemma_pipeline_term_reducible(cs: Seq<char>, c: nat)
    ensures
        ({
            let start = crate::lexer::LexerView {
                buffer: Seq::<char>::empty(),
                starting_point: None,
                row: 0usize,
                column: 0usize,
            };
            let (_, stream) = crate::lexer::lex_all(start, cs);
            let (result, _) = crate::parser::spec_parse(
                seq![crate::parser::IncompleteView::Expressions(seq![])],
                crate::parser::ParserState::Normal,
                stream,
            );
            result matches Ok(e) ==> well_formed(e) && avoids_generated(e, c)
        }),
{
    let start = crate::lexer::LexerView {
        buffer: Seq::<char>::empty(),
        starting_point: None,
        row: 0usize,
        column: 0usize,
    };
    let (_, stream) = crate::lexer::lex_all(start, cs);
    crate::lexer::lemma_lex_all_identifiers(start, cs);
    crate::parser::lemma_parse_result_well_formed(stream);
    crate::parser::lemma_parse_result_identifiers_alphanumeric(stream);
    let (result, _) = crate::parser::spec_parse(
        seq![crate::parser::IncompleteView::Expressions(seq![])],
        crate::parser::ParserState::Normal,
        stream,
    );
    match result {
        Ok(e) => {
            lemma_alphanumeric_no_generated(e);
            lemma_no_generated_avoids(e, c);
        },
        Err(_) => {},
    }
}

/// Whether the name starts with `#`.
fn name_is_generated(name: &String) -> (r: bool)
    ensures
        r == (name@.len() > 0 && name@[0] == '#'),
{
    let s = name.as_str();
    if s.unicode_len() == 0 {
        false
    } else {
        s.get_char(0) == '#'
    }
}

} // verus!
